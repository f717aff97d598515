//! The project manifest `Config/UEPM.ini`: its model, and reading and writing it through
//! `configparser`.

use vstd::prelude::*;
use configparser::ini::Ini;
use crate::error::{ErrorModel, UepmError};
use crate::strmap::{StrMap, entries_map, keys_distinct, lemma_entries_index};
use crate::text::{text_option, str_eq, trim, trimmed};

verus! {

#[verifier::external_type_specification]
#[verifier::external_body]
pub struct ExIni(configparser::ini::Ini);

/// Sections of an INI document, each mapping keys to an optional value.
pub type Sections = Map<Seq<char>, Map<Seq<char>, Option<Seq<char>>>>;

/// What an `Ini` holds: section name to key to optional value.
pub uninterp spec fn ini_contents(ini: Ini) -> Map<Seq<char>, Map<Seq<char>, Option<Seq<char>>>>;

/// Whether an `Ini` has the settings `Ini::new_cs` gives it (case-sensitive names,
/// default section `default`, no cascading to the default section).
pub uninterp spec fn ini_case_sensitive(ini: Ini) -> bool;

/// What `Ini::read` parses a text into, with the settings of `Ini::new_cs`: the sections,
/// or the error message.
pub uninterp spec fn ini_parse(text: Seq<char>) -> Result<Map<Seq<char>, Map<Seq<char>, Option<Seq<char>>>>, Seq<char>>;

/// `text` parses (`ini_parse`) to the sections `s`.
pub open spec fn parses_to(text: Seq<char>, s: Sections) -> bool {
    ini_parse(text) == Result::<Sections, Seq<char>>::Ok(s)
}

/// Calls `Ini::new_cs`. Claims the result holds no section and has those settings.
#[verifier::external_body]
fn ini_new_cs() -> (r: Ini)
    ensures
        ini_contents(r).dom() == Set::<Seq<char>>::empty(),
        ini_case_sensitive(r),
{
    Ini::new_cs()
}

/// Calls `Ini::read`. Claims that on success the `Ini` holds `ini_parse` of the text,
/// and that on failure the error is `ini_parse`'s message and the contents are kept
/// (the source assigns the map only after a successful parse). The settings stay.
/// Claims too that parsed sections are clean: each name, key and value is trimmed and
/// free of comment marks and newlines (lines are cut at the first `;` or `#`), each key
/// is non-empty, does not start with `[` and holds no `=` or `:` (the line is split at
/// its first delimiter).
#[verifier::external_body]
fn ini_read(ini: &mut Ini, text: String) -> (r: Result<(), String>)
    requires
        ini_case_sensitive(*old(ini)),
    ensures
        ini_case_sensitive(*final(ini)),
        match r {
            Ok(()) => parses_to(text@, ini_contents(*final(ini))) && sections_clean(ini_contents(*final(ini))),
            Err(m) => ini_parse(text@) is Err && ini_parse(text@)->Err_0 == m@ && ini_contents(
                *final(ini),
            ) == ini_contents(*old(ini)),
        },
{
    ini.read(text).map(|_| ())
}

pub open spec fn section_of(s: Sections, name: Seq<char>) -> Map<Seq<char>, Option<Seq<char>>> {
    if s.dom().contains(name) {
        s[name]
    } else {
        Map::empty()
    }
}

/// The entries of a section listed once each: every listed key is in the section with
/// the listed value, and every key of the section is listed.
pub open spec fn lists_section(v: Seq<(String, Option<String>)>, sec: Map<Seq<char>, Option<Seq<char>>>) -> bool {
    &&& keys_distinct(v)
    &&& forall|i: int| 0 <= i < v.len() ==> #[trigger] sec.dom().contains(v[i].0@) && sec[v[i].0@]
        == text_option(v[i].1)
    &&& forall|k: Seq<char>| #[trigger] sec.dom().contains(k) ==> exists|i: int| 0 <= i < v.len()
        && #[trigger] v[i].0@ == k
}

/// Reads the map behind `Ini::get_map_ref` and lists the entries of one section. Claims
/// `None` exactly when there is no such section, else each of its entries once, in the
/// map's own (unspecified) order.
#[verifier::external_body]
fn ini_section_entries(ini: &Ini, section: &str) -> (r: Option<Vec<(String, Option<String>)>>)
    ensures
        match r {
            None => !ini_contents(*ini).dom().contains(section@),
            Some(v) => ini_contents(*ini).dom().contains(section@) && lists_section(
                v@,
                ini_contents(*ini)[section@],
            ),
        },
{
    ini.get_map_ref().get(section).map(|m| m.iter().map(|(k, v)| (k.clone(), v.clone())).collect())
}

/// Calls `Ini::get`. Claims, for the settings of `new_cs`, the value stored under the
/// key in the section, `None` when either is missing or the key has no value.
#[verifier::external_body]
fn ini_get(ini: &Ini, section: &str, key: &str) -> (r: Option<String>)
    requires
        ini_case_sensitive(*ini),
    ensures
        text_option(r) == (if section_of(ini_contents(*ini), section@).dom().contains(key@) {
            section_of(ini_contents(*ini), section@)[key@]
        } else {
            None
        }),
{
    ini.get(section, key)
}

/// Calls `Ini::set`. Claims, for the settings of `new_cs`, that the section (created
/// when missing) now maps the key to the value, and nothing else changed.
#[verifier::external_body]
fn ini_set(ini: &mut Ini, section: &str, key: &str, value: Option<String>)
    requires
        ini_case_sensitive(*old(ini)),
    ensures
        ini_case_sensitive(*final(ini)),
        ini_contents(*final(ini)) == ini_contents(*old(ini)).insert(
            section@,
            section_of(ini_contents(*old(ini)), section@).insert(key@, text_option(value)),
        ),
{
    ini.set(section, key, value);
}

/// One key line as `Ini::writes` prints it with default options: the key, then `=`
/// and the value when there is one, then the line ending.
pub open spec fn key_line(key: Seq<char>, value: Option<Seq<char>>, nl: Seq<char>) -> Seq<char> {
    match value {
        Some(v) => key + "="@ + v + nl,
        None => key + nl,
    }
}

/// The key lines of a section, in the given order.
pub open spec fn key_lines(entries: Seq<(Seq<char>, Option<Seq<char>>)>, nl: Seq<char>) -> Seq<char>
    decreases entries.len(),
{
    if entries.len() == 0 {
        Seq::<char>::empty()
    } else {
        key_lines(entries.drop_last(), nl) + key_line(entries.last().0, entries.last().1, nl)
    }
}

/// Sections in the given order, each a `[name]` line followed by its key lines.
pub open spec fn section_blocks(
    blocks: Seq<(Seq<char>, Seq<(Seq<char>, Option<Seq<char>>)>)>,
    nl: Seq<char>,
) -> Seq<char>
    decreases blocks.len(),
{
    if blocks.len() == 0 {
        Seq::<char>::empty()
    } else {
        section_blocks(blocks.drop_last(), nl) + "["@ + blocks.last().0 + "]"@ + nl + key_lines(
            blocks.last().1,
            nl,
        )
    }
}

/// The entries list each key of the section once, with its value.
pub open spec fn lists_entries(
    e: Seq<(Seq<char>, Option<Seq<char>>)>,
    sec: Map<Seq<char>, Option<Seq<char>>>,
) -> bool {
    &&& forall|i: int, j: int| 0 <= i < j < e.len() ==> (#[trigger] e[i]).0 != (#[trigger] e[j]).0
    &&& forall|i: int| 0 <= i < e.len() ==> sec.dom().contains((#[trigger] e[i]).0) && sec[e[i].0]
        == e[i].1
    &&& forall|k: Seq<char>| #[trigger] sec.dom().contains(k) ==> exists|i: int| 0 <= i < e.len()
        && (#[trigger] e[i]).0 == k
}

/// The blocks list each section once, with all of its entries.
pub open spec fn lists_sections(blocks: Seq<(Seq<char>, Seq<(Seq<char>, Option<Seq<char>>)>)>, s: Sections) -> bool {
    &&& forall|i: int, j: int| 0 <= i < j < blocks.len() ==> (#[trigger] blocks[i]).0 != (
    #[trigger] blocks[j]).0
    &&& forall|i: int| 0 <= i < blocks.len() ==> s.dom().contains((#[trigger] blocks[i]).0)
        && lists_entries(blocks[i].1, s[blocks[i].0])
    &&& forall|k: Seq<char>| #[trigger] s.dom().contains(k) ==> exists|i: int| 0 <= i < blocks.len()
        && (#[trigger] blocks[i]).0 == k
}

/// `text` is the sections printed as INI: every section and every key exactly once, in
/// some order of sections and of keys within each, with the platform's line ending.
pub open spec fn renders_sections(s: Sections, text: Seq<char>) -> bool {
    exists|nl: Seq<char>, blocks: Seq<(Seq<char>, Seq<(Seq<char>, Option<Seq<char>>)>)>|
        (nl == "\n"@ || nl == "\r\n"@) && lists_sections(blocks, s) && text == #[trigger] section_blocks(
            blocks,
            nl,
        )
}

/// No character of `s` is one of `;`, `#` (comment marks) or a newline.
pub open spec fn free_of_comment_marks(s: Seq<char>) -> bool {
    forall|i: int| 0 <= i < s.len() ==> #[trigger] s[i] != ';' && s[i] != '#' && s[i] != '\n'
}

/// No character of `s` is a key delimiter, `=` or `:`.
pub open spec fn free_of_delimiters(s: Seq<char>) -> bool {
    forall|i: int| 0 <= i < s.len() ==> #[trigger] s[i] != '=' && s[i] != ':'
}

/// A section name that reads back as itself from its `[name]` line: no surrounding
/// white space, comment marks or newlines (brackets inside are read back, the last `]`
/// of the line closing the name).
pub open spec fn section_name_ok(s: Seq<char>) -> bool {
    trimmed(s) == s && free_of_comment_marks(s)
}

/// A key that reads back as itself from its `key=value` (or bare `key`) line:
/// non-empty, not starting with `[` (which would open a section), without surrounding
/// white space, comment marks, newlines or delimiters.
pub open spec fn key_text_ok(s: Seq<char>) -> bool {
    &&& s.len() > 0
    &&& s[0] != '['
    &&& trimmed(s) == s
    &&& free_of_comment_marks(s)
    &&& free_of_delimiters(s)
}

/// A value that reads back as itself from the end of its `key=value` line.
pub open spec fn value_text_ok(s: Seq<char>) -> bool {
    trimmed(s) == s && free_of_comment_marks(s)
}

/// Sections whose names, keys and values are all of the form `Ini::read` gives: the
/// parser trims each of them, cuts lines at the first comment mark, splits a key from
/// its value at the first delimiter and refuses an empty key.
pub open spec fn sections_clean(s: Sections) -> bool {
    &&& forall|name: Seq<char>| #[trigger] s.dom().contains(name) ==> section_name_ok(name)
    &&& forall|name: Seq<char>, key: Seq<char>| #[trigger] s.dom().contains(name) && #[trigger] s[name].dom().contains(key) ==> key_text_ok(key)
        && (s[name][key] is Some ==> value_text_ok(s[name][key]->Some_0))
}

/// Sections that `Ini::writes` prints in a form that `Ini::read` (case-sensitive, default
/// comment marks and delimiters) parses back to the same sections: clean sections,
/// none of them named `default`.
pub open spec fn ini_writable(s: Sections) -> bool {
    &&& !s.dom().contains("default"@)
    &&& sections_clean(s)
}

/// Calls `Ini::writes`, which renders the sections with default write options (`=`
/// without spaces, no blank lines between sections) and, for `new_cs` settings, no
/// multi-line values. Claims, when there is no section named `default` (whose keys
/// would be printed first without a header), that the text is the sections printed
/// in some order: the order of sections and of keys follows the `HashMap` inside and
/// is left open, as is the line ending (`\r\n` on Windows, `\n` elsewhere). Claims
/// too that for `ini_writable` sections `Ini::read` with the same settings parses the
/// text back to the same sections: each `[name]` line opens its section and each
/// `key=value` line, trimmed and split at its first delimiter, gives back the entry.
#[verifier::external_body]
fn ini_writes(ini: &Ini) -> (r: String)
    ensures
        ini_case_sensitive(*ini) && !ini_contents(*ini).dom().contains("default"@) ==> renders_sections(
            ini_contents(*ini),
            r@,
        ),
        ini_case_sensitive(*ini) && ini_writable(ini_contents(*ini)) ==> parses_to(r@, ini_contents(*ini)),
{
    ini.writes()
}

/// The plugin manifest of a project (or of a plugin, for its own dependencies).
#[derive(Debug, Clone)]
pub struct ProjectManifest {
    /// Package name to required semver range.
    pub plugins: StrMap<String>,
    pub engine_version: Option<String>,
    pub commit_plugins: bool,
}

pub struct ManifestModel {
    pub plugins: Map<Seq<char>, Seq<char>>,
    pub engine_version: Option<Seq<char>>,
    pub commit_plugins: bool,
}

impl View for ProjectManifest {
    type V = ManifestModel;

    open spec fn view(&self) -> ManifestModel {
        ManifestModel {
            plugins: self.plugins@,
            engine_version: text_option(self.engine_version),
            commit_plugins: self.commit_plugins,
        }
    }
}

impl Default for ProjectManifest {
    fn default() -> (m: Self)
        ensures
            m@ == (ManifestModel {
                plugins: Map::empty(),
                engine_version: None,
                commit_plugins: false,
            }),
    {
        ProjectManifest { plugins: StrMap::new(), engine_version: None, commit_plugins: false }
    }
}

/// The manifest that a document's sections describe: `[Plugins]` entries with a value
/// (trimmed), `[Settings] EngineVersion`, and `[Settings] CommitPlugins` being `true`.
pub open spec fn manifest_of(s: Sections) -> ManifestModel {
    let plugins = section_of(s, "Plugins"@);
    let settings = section_of(s, "Settings"@);
    ManifestModel {
        plugins: Map::new(
            |k: Seq<char>| plugins.dom().contains(k) && plugins[k] is Some,
            |k: Seq<char>| trimmed(plugins[k]->Some_0),
        ),
        engine_version: if settings.dom().contains("EngineVersion"@) {
            settings["EngineVersion"@]
        } else {
            None
        },
        commit_plugins: settings.dom().contains("CommitPlugins"@) && settings["CommitPlugins"@] is Some
            && trimmed(settings["CommitPlugins"@]->Some_0) == "true"@,
    }
}

/// What a document says of each field of the manifest depends on that field's own
/// entry alone. The engine version is the `[Settings] EngineVersion` value when that key
/// is present and none otherwise; commit is on exactly when `[Settings] CommitPlugins`
/// holds `true` (surrounding white space aside); a package is listed exactly when it
/// has a value in `[Plugins]`, with that value trimmed. Two documents that agree on an
/// entry agree on the field it gives, whatever else they hold.
pub proof fn lemma_manifest_fields(s: Sections, t: Sections)
    ensures
        section_of(s, "Settings"@).dom().contains("EngineVersion"@) ==> manifest_of(s).engine_version
            == section_of(s, "Settings"@)["EngineVersion"@],
        !section_of(s, "Settings"@).dom().contains("EngineVersion"@) ==> manifest_of(s).engine_version is None,
        manifest_of(s).commit_plugins <==> (section_of(s, "Settings"@).dom().contains("CommitPlugins"@)
            && section_of(s, "Settings"@)["CommitPlugins"@] is Some && trimmed(
            section_of(s, "Settings"@)["CommitPlugins"@]->Some_0,
        ) == "true"@),
        forall|k: Seq<char>| #[trigger] manifest_of(s).plugins.dom().contains(k) <==> (section_of(
            s,
            "Plugins"@,
        ).dom().contains(k) && section_of(s, "Plugins"@)[k] is Some),
        forall|k: Seq<char>| #[trigger] manifest_of(s).plugins.dom().contains(k) ==> manifest_of(s).plugins[k]
            == trimmed(section_of(s, "Plugins"@)[k]->Some_0),
        section_of(s, "Settings"@).dom().contains("EngineVersion"@) == section_of(t, "Settings"@).dom().contains(
            "EngineVersion"@,
        ) && (section_of(s, "Settings"@).dom().contains("EngineVersion"@) ==> section_of(s, "Settings"@)["EngineVersion"@]
            == section_of(t, "Settings"@)["EngineVersion"@]) ==> manifest_of(s).engine_version == manifest_of(
            t,
        ).engine_version,
        section_of(s, "Plugins"@) == section_of(t, "Plugins"@) ==> manifest_of(s).plugins == manifest_of(t).plugins,
{
    if section_of(s, "Plugins"@) == section_of(t, "Plugins"@) {
        assert(manifest_of(s).plugins =~= manifest_of(t).plugins);
    }
}

/// Text of a `bool` as `bool::to_string` writes it.
pub open spec fn bool_text(b: bool) -> Seq<char> {
    if b { "true"@ } else { "false"@ }
}

/// The sections written for a manifest: `[Plugins]` with one key per plugin (omitted
/// when there is none) and `[Settings]` with `EngineVersion` when set and `CommitPlugins`.
pub open spec fn sections_of(m: ManifestModel) -> Sections {
    let settings0 = match m.engine_version {
        Some(v) => Map::<Seq<char>, Option<Seq<char>>>::empty().insert("EngineVersion"@, Some(v)),
        None => Map::<Seq<char>, Option<Seq<char>>>::empty(),
    };
    let settings = settings0.insert("CommitPlugins"@, Some(bool_text(m.commit_plugins)));
    let with_plugins = if m.plugins == Map::<Seq<char>, Seq<char>>::empty() {
        Map::<Seq<char>, Map<Seq<char>, Option<Seq<char>>>>::empty()
    } else {
        Map::<Seq<char>, Map<Seq<char>, Option<Seq<char>>>>::empty().insert(
            "Plugins"@,
            m.plugins.map_values(|v: Seq<char>| Some(v)),
        )
    };
    with_plugins.insert("Settings"@, settings)
}


/// The manifest described by what an `Ini` holds.
fn manifest_from_ini(ini: &Ini) -> (m: ProjectManifest)
    requires
        ini_case_sensitive(*ini),
    ensures
        m@ == manifest_of(ini_contents(*ini)),
{
    let ghost sec = section_of(ini_contents(*ini), "Plugins"@);
    let mut plugins: StrMap<String> = StrMap::new();
    match ini_section_entries(ini, "Plugins") {
        None => {
            proof {
                assert(plugins@ =~= manifest_of(ini_contents(*ini)).plugins);
            }
        },
        Some(v) => {
            let mut i: usize = 0;
            while i < v.len()
                invariant
                    i <= v@.len(),
                    sec == ini_contents(*ini)["Plugins"@],
                    lists_section(v@, sec),
                    forall|j: int| 0 <= j < i && (#[trigger] v@[j]).1 is Some ==> plugins@.dom().contains(
                        v@[j].0@,
                    ) && plugins@[v@[j].0@] == trimmed(v@[j].1->Some_0@),
                    forall|k: Seq<char>| #[trigger] plugins@.dom().contains(k) ==> exists|j: int|
                        0 <= j < i && #[trigger] v@[j].0@ == k && v@[j].1 is Some,
                decreases v@.len() - i,
            {
                match &v[i].1 {
                    Some(value) => {
                        let t = trim(value.as_str());
                        let ghost before = plugins@;
                        plugins.insert(v[i].0.clone(), String::from_str(t));
                        proof {
                            assert forall|j: int| 0 <= j < i + 1 && (#[trigger] v@[j]).1 is Some implies plugins@.dom().contains(
                                v@[j].0@,
                            ) && plugins@[v@[j].0@] == trimmed(v@[j].1->Some_0@) by {
                                if j < i {
                                    assert(v@[j].0@ != v@[i as int].0@);
                                }
                            }
                            assert forall|k: Seq<char>| #[trigger] plugins@.dom().contains(k) implies exists|j: int|
                                0 <= j < i + 1 && #[trigger] v@[j].0@ == k && v@[j].1 is Some by {
                                if k == v@[i as int].0@ {
                                    assert(v@[i as int].0@ == k);
                                } else {
                                    assert(before.dom().contains(k));
                                }
                            }
                        }
                    },
                    None => {},
                }
                i = i + 1;
            }
            proof {
                let want = manifest_of(ini_contents(*ini)).plugins;
                assert forall|k: Seq<char>| #[trigger] plugins@.dom().contains(k) implies want.dom().contains(k)
                    && plugins@[k] == want[k] by {
                    let j = choose|j: int| 0 <= j < v@.len() && #[trigger] v@[j].0@ == k && v@[j].1 is Some;
                    assert(sec.dom().contains(v@[j].0@));
                }
                assert forall|k: Seq<char>| #[trigger] want.dom().contains(k) implies plugins@.dom().contains(k) by {
                    assert(sec.dom().contains(k));
                    let j = choose|j: int| 0 <= j < v@.len() && #[trigger] v@[j].0@ == k;
                    assert(sec[v@[j].0@] == text_option(v@[j].1));
                }
                assert(plugins@ =~= want);
            }
        },
    }
    let engine_version = ini_get(ini, "Settings", "EngineVersion");
    let commit_plugins = match ini_get(ini, "Settings", "CommitPlugins") {
        Some(value) => str_eq(trim(value.as_str()), "true"),
        None => false,
    };
    ProjectManifest { plugins, engine_version, commit_plugins }
}

/// The manifest that clean sections describe is writable: its names, ranges and engine
/// version are as the parser gives them.
proof fn lemma_clean_manifest_writable(s: Sections)
    requires
        sections_clean(s),
    ensures
        manifest_writable(manifest_of(s)),
{
    let m = manifest_of(s);
    let plugins = section_of(s, "Plugins"@);
    let settings = section_of(s, "Settings"@);
    assert forall|k: Seq<char>| #[trigger] m.plugins.dom().contains(k) implies key_text_ok(k) && value_text_ok(
        m.plugins[k],
    ) by {
        assert(s.dom().contains("Plugins"@) && s["Plugins"@].dom().contains(k));
    }
    if m.engine_version is Some {
        assert(s.dom().contains("Settings"@) && s["Settings"@].dom().contains("EngineVersion"@));
    }
}

/// Parses manifest text with `configparser` (case-sensitive names). A text that does
/// not parse is a `ManifestParse` error carrying the parser's message. A manifest read
/// this way is writable, so writing it back reads back as itself.
pub fn read_manifest(content: &str) -> (r: Result<ProjectManifest, UepmError>)
    ensures
        match ini_parse(content@) {
            Err(m) => r is Err && r->Err_0@ == ErrorModel::ManifestParse(m),
            Ok(s) => r is Ok && r->Ok_0@ == manifest_of(s),
        },
        r is Ok ==> manifest_writable(r->Ok_0@),
{
    let mut config = ini_new_cs();
    match ini_read(&mut config, String::from_str(content)) {
        Err(m) => Err(UepmError::ManifestParse(m)),
        Ok(()) => {
            proof {
                lemma_clean_manifest_writable(ini_contents(config));
            }
            Ok(manifest_from_ini(&config))
        },
    }
}

/// `true` or `false`, as `bool::to_string` writes them.
pub fn bool_to_string(b: bool) -> (r: String)
    ensures
        r@ == bool_text(b),
{
    if b {
        String::from_str("true")
    } else {
        String::from_str("false")
    }
}

/// An `Ini` holding the sections that describe the manifest.
pub fn manifest_to_ini(manifest: &ProjectManifest) -> (ini: Ini)
    ensures
        ini_case_sensitive(ini),
        ini_contents(ini) == sections_of(manifest@),
{
    let mut config = ini_new_cs();
    let entries = manifest.plugins.entries();
    let ghost e = entries@;
    let mut i: usize = 0;
    proof {
        reveal_strlit("Plugins");
        reveal_strlit("Settings");
        assert(ini_contents(config) =~= Sections::empty());
    }
    while i < entries.len()
        invariant
            i <= e.len(),
            e == entries@,
            keys_distinct(e),
            ini_case_sensitive(config),
            ini_contents(config) == (if i == 0 {
                Sections::empty()
            } else {
                Sections::empty().insert(
                    "Plugins"@,
                    entries_map(e.take(i as int)).map_values(|v: Seq<char>| Some(v)),
                )
            }),
        decreases e.len() - i,
    {
        let ghost old_contents = ini_contents(config);
        ini_set(&mut config, "Plugins", entries[i].0.as_str(), Some(entries[i].1.clone()));
        proof {
            assert(e.take(i + 1).drop_last() =~= e.take(i as int));
            let m0 = entries_map(e.take(i as int));
            assert(entries_map(e.take(i + 1)) == m0.insert(e[i as int].0@, e[i as int].1@));
            assert(m0.insert(e[i as int].0@, e[i as int].1@).map_values(|v: Seq<char>| Some(v)) =~= m0.map_values(
                |v: Seq<char>| Some(v),
            ).insert(e[i as int].0@, Some(e[i as int].1@)));
            if i == 0 {
                assert(m0 =~= Map::<Seq<char>, Seq<char>>::empty());
                assert(section_of(old_contents, "Plugins"@) =~= m0.map_values(|v: Seq<char>| Some(v)));
            }
        }
        i = i + 1;
    }
    proof {
        assert(e.take(e.len() as int) =~= e);
        if e.len() > 0 {
            lemma_entries_index(e, 0);
            assert(manifest@.plugins.dom().contains(e[0].0@));
        } else {
            assert(manifest@.plugins =~= Map::<Seq<char>, Seq<char>>::empty());
        }
    }
    let ghost after_plugins = ini_contents(config);
    match &manifest.engine_version {
        Some(ev) => {
            ini_set(&mut config, "Settings", "EngineVersion", Some(ev.clone()));
        },
        None => {},
    }
    let ghost after_engine = ini_contents(config);
    ini_set(&mut config, "Settings", "CommitPlugins", Some(bool_to_string(manifest.commit_plugins)));
    proof {
        reveal_strlit("EngineVersion");
        reveal_strlit("CommitPlugins");
        reveal_strlit("Plugins");
        reveal_strlit("Settings");
        let want = sections_of(manifest@);
        assert("Plugins"@.len() == 7);
        assert("Settings"@.len() == 8);
        assert("Plugins"@ != "Settings"@);
        assert(!after_plugins.dom().contains("Settings"@));
        let settings = section_of(ini_contents(config), "Settings"@);
        assert(settings =~= want["Settings"@]);
        if e.len() > 0 {
            assert(ini_contents(config)["Plugins"@] =~= want["Plugins"@]);
        }
        assert(ini_contents(config) =~= want);
    }
    config
}

/// A manifest whose written text reads back as itself: package names and ranges, and
/// the engine version, fit `ini_writable` (ranges and versions without surrounding
/// white space, comment marks or newlines; names also non-empty, not starting with `[`
/// and without `=` or `:`). Every manifest that `read_manifest` gives is one.
pub open spec fn manifest_writable(m: ManifestModel) -> bool {
    &&& forall|k: Seq<char>| #[trigger] m.plugins.dom().contains(k) ==> key_text_ok(k) && value_text_ok(m.plugins[k])
    &&& (m.engine_version is Some ==> value_text_ok(m.engine_version->Some_0))
}

proof fn lemma_literal_texts_ok()
    ensures
        section_name_ok("Plugins"@),
        section_name_ok("Settings"@),
        key_text_ok("EngineVersion"@),
        key_text_ok("CommitPlugins"@),
        value_text_ok("true"@),
        value_text_ok("false"@),
        "Plugins"@ != "default"@,
        "Settings"@ != "default"@,
        "Plugins"@ != "Settings"@,
        "EngineVersion"@ != "CommitPlugins"@,
{
    reveal_strlit("Plugins");
    reveal_strlit("Settings");
    reveal_strlit("EngineVersion");
    reveal_strlit("CommitPlugins");
    reveal_strlit("true");
    reveal_strlit("false");
    reveal_strlit("default");
    assert("Plugins"@.len() == 7);
    assert("Settings"@.len() == 8);
    assert("default"@.len() == 7);
    assert("default"@[0] != "Plugins"@[0]);
    assert("EngineVersion"@[0] != "CommitPlugins"@[0]);
    assert(trimmed("Plugins"@) == "Plugins"@);
    assert(trimmed("Settings"@) == "Settings"@);
    assert(trimmed("EngineVersion"@) == "EngineVersion"@);
    assert(trimmed("CommitPlugins"@) == "CommitPlugins"@);
    assert(trimmed("true"@) == "true"@);
    assert(trimmed("false"@) == "false"@);
}

/// The sections of a writable manifest are `ini_writable`.
proof fn lemma_sections_writable(m: ManifestModel)
    requires
        manifest_writable(m),
    ensures
        ini_writable(sections_of(m)),
{
    lemma_literal_texts_ok();
    let s = sections_of(m);
    assert forall|name: Seq<char>, key: Seq<char>| #[trigger] s.dom().contains(name) && #[trigger] s[name].dom().contains(key) implies key_text_ok(key)
        && (s[name][key] is Some ==> value_text_ok(s[name][key]->Some_0)) by {
        if name == "Settings"@ {
        } else {
            assert(name == "Plugins"@);
            assert(m.plugins.dom().contains(key));
        }
    }
}

/// Renders the manifest as INI text with `configparser`: the sections that describe it,
/// each section and key once; their order follows the parser's hash map. The text of a
/// writable manifest parses back to those sections.
pub fn write_manifest(manifest: &ProjectManifest) -> (text: String)
    ensures
        renders_sections(sections_of(manifest@), text@),
        manifest_writable(manifest@) ==> parses_to(text@, sections_of(manifest@)),
{
    let config = manifest_to_ini(manifest);
    proof {
        lemma_literal_texts_ok();
        assert(!sections_of(manifest@).dom().contains("default"@));
        if manifest_writable(manifest@) {
            lemma_sections_writable(manifest@);
        }
    }
    ini_writes(&config)
}

/// Read after write: the text that `write_manifest` gives for a writable manifest (it
/// parses to the manifest's sections) reads back with `read_manifest` as that manifest.
pub proof fn lemma_read_after_write(m: ManifestModel, text: Seq<char>)
    requires
        manifest_writable(m),
        parses_to(text, sections_of(m)),
    ensures
        ini_parse(text) is Ok,
        manifest_of(ini_parse(text)->Ok_0) == m,
{
    assert forall|k: Seq<char>| #[trigger] m.plugins.dom().contains(k) implies trimmed(m.plugins[k]) == m.plugins[k] by {
    }
    lemma_sections_round_trip(m);
}

/// A fresh manifest: no plugins, the given engine version and commit setting.
pub fn create_manifest(engine_version: Option<&str>, commit_plugins: bool) -> (m: ProjectManifest)
    ensures
        m@.plugins == Map::<Seq<char>, Seq<char>>::empty(),
        m@.engine_version == match engine_version {
            Some(v) => Some(v@),
            None => None::<Seq<char>>,
        },
        m@.commit_plugins == commit_plugins,
{
    let engine_version = match engine_version {
        Some(v) => Some(String::from_str(v)),
        None => None,
    };
    ProjectManifest { plugins: StrMap::new(), engine_version, commit_plugins }
}

/// Records `package` with the required `range`, replacing any range it had.
pub fn add_plugin(manifest: &mut ProjectManifest, package: &str, range: &str)
    ensures
        final(manifest)@.plugins == old(manifest)@.plugins.insert(package@, range@),
        final(manifest)@.engine_version == old(manifest)@.engine_version,
        final(manifest)@.commit_plugins == old(manifest)@.commit_plugins,
        manifest_writable(old(manifest)@) && key_text_ok(package@) && value_text_ok(range@)
            ==> manifest_writable(final(manifest)@),
{
    manifest.plugins.insert(String::from_str(package), String::from_str(range));
    proof {
        if manifest_writable(old(manifest)@) && key_text_ok(package@) && value_text_ok(range@) {
            lemma_add_keeps_writable(old(manifest)@, package@, range@);
            assert(manifest@.plugins =~= with_plugin(old(manifest)@, package@, range@).plugins);
        }
    }
}

/// Drops `package` from the manifest, if it is there.
pub fn remove_plugin(manifest: &mut ProjectManifest, package: &str)
    ensures
        final(manifest)@.plugins == old(manifest)@.plugins.remove(package@),
        final(manifest)@.engine_version == old(manifest)@.engine_version,
        final(manifest)@.commit_plugins == old(manifest)@.commit_plugins,
        manifest_writable(old(manifest)@) ==> manifest_writable(final(manifest)@),
{
    manifest.plugins.remove(package);
    proof {
        if manifest_writable(old(manifest)@) {
            lemma_remove_keeps_writable(old(manifest)@, package@);
            assert(manifest@.plugins =~= without_plugin(old(manifest)@, package@).plugins);
        }
    }
}

/// Adding a package the manifest did not hold and then removing it leaves the plugins
/// as they were.
pub proof fn lemma_add_then_remove_restores(m: ManifestModel, package: Seq<char>, range: Seq<char>)
    requires
        !m.plugins.dom().contains(package),
    ensures
        m.plugins.insert(package, range).remove(package) == m.plugins,
{
    assert(m.plugins.insert(package, range).remove(package) =~= m.plugins);
}

/// The manifest after `add_plugin(package, range)`.
pub open spec fn with_plugin(m: ManifestModel, package: Seq<char>, range: Seq<char>) -> ManifestModel {
    ManifestModel { plugins: m.plugins.insert(package, range), ..m }
}

/// The manifest after `remove_plugin(package)`.
pub open spec fn without_plugin(m: ManifestModel, package: Seq<char>) -> ManifestModel {
    ManifestModel { plugins: m.plugins.remove(package), ..m }
}

/// Adding a package whose name and range are writable keeps a manifest writable.
pub proof fn lemma_add_keeps_writable(m: ManifestModel, package: Seq<char>, range: Seq<char>)
    requires
        manifest_writable(m),
        key_text_ok(package),
        value_text_ok(range),
    ensures
        manifest_writable(with_plugin(m, package, range)),
{
}

/// Removing a package keeps a manifest writable.
pub proof fn lemma_remove_keeps_writable(m: ManifestModel, package: Seq<char>)
    requires
        manifest_writable(m),
    ensures
        manifest_writable(without_plugin(m, package)),
{
}

/// Add, write, read back: the text written after adding a writable package to a
/// writable manifest reads back as the manifest with that package (added or with its
/// range replaced) and everything else unchanged.
pub proof fn lemma_add_reads_back(m: ManifestModel, package: Seq<char>, range: Seq<char>, text: Seq<char>)
    requires
        manifest_writable(m),
        key_text_ok(package),
        value_text_ok(range),
        parses_to(text, sections_of(with_plugin(m, package, range))),
    ensures
        ini_parse(text) is Ok,
        manifest_of(ini_parse(text)->Ok_0) == with_plugin(m, package, range),
{
    lemma_add_keeps_writable(m, package, range);
    lemma_read_after_write(with_plugin(m, package, range), text);
}

/// Remove, write, read back: the text written after removing a package from a writable
/// manifest reads back as the manifest without it and everything else unchanged.
pub proof fn lemma_remove_reads_back(m: ManifestModel, package: Seq<char>, text: Seq<char>)
    requires
        manifest_writable(m),
        parses_to(text, sections_of(without_plugin(m, package))),
    ensures
        ini_parse(text) is Ok,
        manifest_of(ini_parse(text)->Ok_0) == without_plugin(m, package),
{
    lemma_remove_keeps_writable(m, package);
    lemma_read_after_write(without_plugin(m, package), text);
}

/// Remove undoes add through the file: add a new writable package, write and read back,
/// remove it, write and read back, and the original manifest comes back.
pub proof fn lemma_add_then_remove_reads_back(
    m: ManifestModel,
    package: Seq<char>,
    range: Seq<char>,
    added_text: Seq<char>,
    removed_text: Seq<char>,
)
    requires
        manifest_writable(m),
        !m.plugins.dom().contains(package),
        key_text_ok(package),
        value_text_ok(range),
        parses_to(added_text, sections_of(with_plugin(m, package, range))),
        parses_to(
            removed_text,
            sections_of(without_plugin(manifest_of(ini_parse(added_text)->Ok_0), package)),
        ),
    ensures
        ini_parse(removed_text) is Ok,
        manifest_of(ini_parse(removed_text)->Ok_0) == m,
{
    lemma_add_reads_back(m, package, range, added_text);
    let back = with_plugin(m, package, range);
    lemma_add_keeps_writable(m, package, range);
    lemma_remove_reads_back(back, package, removed_text);
    lemma_add_then_remove_restores(m, package, range);
    assert(without_plugin(back, package) == m);
}

/// Reading back the sections written for a manifest gives the manifest again, provided
/// its ranges carry no surrounding white space (reading trims them).
pub proof fn lemma_sections_round_trip(m: ManifestModel)
    requires
        forall|k: Seq<char>| #[trigger] m.plugins.dom().contains(k) ==> trimmed(m.plugins[k]) == m.plugins[k],
    ensures
        manifest_of(sections_of(m)) == m,
{
    reveal_strlit("Plugins");
    reveal_strlit("Settings");
    reveal_strlit("EngineVersion");
    reveal_strlit("CommitPlugins");
    reveal_strlit("true");
    reveal_strlit("false");
    assert("Plugins"@.len() == 7);
    assert("Settings"@.len() == 8);
    assert("EngineVersion"@.len() == 13);
    assert("CommitPlugins"@.len() == 13);
    assert("EngineVersion"@[0] != "CommitPlugins"@[0]);
    assert("true"@.len() == 4 && "false"@.len() == 5);
    let s = sections_of(m);
    let r = manifest_of(s);
    assert(trimmed("true"@) == "true"@);
    assert(trimmed("false"@) == "false"@);
    if m.plugins == Map::<Seq<char>, Seq<char>>::empty() {
        assert(r.plugins =~= m.plugins);
    } else {
        assert(r.plugins =~= m.plugins);
    }
    assert(r.engine_version == m.engine_version);
    assert(r.commit_plugins == m.commit_plugins);
}

} // verus!
