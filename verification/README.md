# uepm

The verified core of UEPM, a package manager for Unreal Engine plugins that installs
plugins from an npm-compatible registry into a project's `UEPMPlugins/` directory.

`src/` holds the logic, proved with Verus:

- `manifest` — the `Config/UEPM.ini` model, read and written through `configparser`;
- `resolver` — plugin directory names, semver conflict checks and the resolver state
  machine that installs a package and its dependencies depth first;
- `resolution` — the proof that the state machine ends where the recursive
  install-and-resolve ends;
- `progress` — laws of a whole run: resolved versions and lock entries only grow, no
  package is installed twice, and a run over a finite set of packages finishes;
- `installer` — SHA-512 integrity checking of tarballs, the plan for unpacking them,
  and the version a plugin descriptor declares;
- `entry_paths` — where a tarball entry lands, worked out on the bytes of its path;
- `paths` — path equality by components, for the platform's separator;
- `ue_install` and `versions` — engine discovery: launcher data, version order
  (parts by value, text parts counting as 0, ties settled lexicographically),
  sorting and de-duplication;
- `lockfile`, `strmap`, `text`, `error` — supporting types.

`app/` holds the filesystem, network and platform code that drives the library.
