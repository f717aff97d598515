//! The resolver against the recursive install-and-resolve it stands for: driven with
//! the caller's answers, it ends exactly where the recursion ends.

use vstd::prelude::*;
use crate::error::ErrorModel;
use crate::lockfile::LockedModel;
use crate::resolver::{
    FrameModel, MetaModel, PendingModel, ReplyModel, RequestModel, Resolver, StateModel,
    begin_call, conflict_outcome, download_needed_spec, request_for, locked_meta, record_dependency, remaining, return_ok,
    semver_matches, semver_range_parse, semver_version_parse, settle, step_spec,
};

verus! {

/// What the outside world answers to each request of a run.
pub struct World {
    pub metadata: spec_fn(Seq<char>, Seq<char>) -> Result<MetaModel, ErrorModel>,
    pub install: spec_fn(Seq<char>, MetaModel) -> Result<(), ErrorModel>,
    pub manifest: spec_fn(Seq<char>) -> Option<Seq<(Seq<char>, Seq<char>)>>,
}

/// The lock file's plugins and the versions resolved so far.
pub struct Store {
    pub lock: Map<Seq<char>, LockedModel>,
    pub resolved: Map<Seq<char>, Seq<char>>,
}

/// The recursive install-and-resolve of `package` for `range`, `None` when `fuel`
/// (the depth of the recursion) runs out: an already resolved package is only checked
/// against the range; otherwise its locked (or else looked-up) version is installed,
/// recorded as resolved and locked, and the dependencies its manifest declares are
/// installed in turn, each recorded under it, at the version it resolved to, once it
/// succeeds. The first error ends it.
pub open spec fn resolve(w: World, fuel: nat, s: Store, package: Seq<char>, range: Seq<char>) -> Option<
    (Store, Result<(), ErrorModel>),
>
    decreases fuel, 0nat,
{
    if fuel == 0 {
        None
    } else if s.resolved.dom().contains(package) {
        let v = s.resolved[package];
        Some(
            (
                s,
                conflict_outcome(
                    package,
                    v,
                    range,
                    semver_range_parse(range),
                    semver_version_parse(v),
                    semver_matches(range, v),
                ),
            ),
        )
    } else {
        let meta = if s.lock.dom().contains(package) {
            Ok(locked_meta(s.lock[package]))
        } else {
            (w.metadata)(package, range)
        };
        match meta {
            Err(e) => Some((s, Err(e))),
            Ok(m) => match (w.install)(package, m) {
                Err(e) => Some((s, Err(e))),
                Ok(()) => {
                    let s2 = Store {
                        resolved: s.resolved.insert(package, m.version),
                        lock: s.lock.insert(
                            package,
                            LockedModel {
                                resolved: m.version,
                                tarball: m.tarball,
                                sha512: m.integrity,
                                dependencies: Map::empty(),
                            },
                        ),
                    };
                    match (w.manifest)(package) {
                        None => Some((s2, Ok(()))),
                        Some(deps) => resolve_deps(w, (fuel - 1) as nat, s2, package, deps, 0),
                    }
                },
            },
        }
    }
}

/// Installs `deps[i..]` of `parent` one after the other, recording each success.
pub open spec fn resolve_deps(
    w: World,
    fuel: nat,
    s: Store,
    parent: Seq<char>,
    deps: Seq<(Seq<char>, Seq<char>)>,
    i: nat,
) -> Option<(Store, Result<(), ErrorModel>)>
    decreases fuel, deps.len() - i + 1,
{
    if i >= deps.len() {
        Some((s, Ok(())))
    } else {
        match resolve(w, fuel, s, deps[i as int].0, deps[i as int].1) {
            None => None,
            Some((s2, Err(e))) => Some((s2, Err(e))),
            Some((s2, Ok(()))) => resolve_deps(
                w,
                fuel,
                Store { lock: record_dependency(s2.lock, s2.resolved, parent, deps[i as int].0), ..s2 },
                parent,
                deps,
                i + 1,
            ),
        }
    }
}

/// The answer the world gives to a request.
pub open spec fn reply_for(w: World, req: RequestModel) -> ReplyModel {
    match req {
        RequestModel::FetchMetadata { package, range } => ReplyModel::Metadata((w.metadata)(package, range)),
        RequestModel::Install { package, metadata } => ReplyModel::Installed((w.install)(package, metadata)),
        RequestModel::ReadPluginManifest { package } => ReplyModel::PluginManifest((w.manifest)(package)),
        RequestModel::Done(_) => ReplyModel::PluginManifest(None),
    }
}

/// `n` steps of the resolver, each fed the world's answer to the last request.
pub open spec fn drive(w: World, x: (StateModel, RequestModel), n: nat) -> (StateModel, RequestModel)
    decreases n,
{
    if n == 0 {
        x
    } else {
        drive(w, step_spec(x.0, reply_for(w, x.1)), (n - 1) as nat)
    }
}

pub open spec fn with_store(st: StateModel, s: Store) -> StateModel {
    StateModel { lock: s.lock, resolved: s.resolved, ..st }
}

pub open spec fn store_of(st: StateModel) -> Store {
    Store { lock: st.lock, resolved: st.resolved }
}

/// Driving `a + b` steps is driving `a` steps, then `b` more.
pub proof fn lemma_drive_add(w: World, x: (StateModel, RequestModel), a: nat, b: nat)
    ensures
        drive(w, x, a + b) == drive(w, drive(w, x, a), b),
    decreases a,
{
    if a > 0 {
        lemma_drive_add(w, step_spec(x.0, reply_for(w, x.1)), (a - 1) as nat, b);
        assert((a + b - 1) as nat == (a - 1) as nat + b);
    }
}

/// The resolver has finished with this outcome and these lock file plugins and
/// resolved versions.
pub open spec fn finished_with(x: (StateModel, RequestModel), s: Store, outcome: Result<(), ErrorModel>) -> bool {
    &&& x.1 == RequestModel::Done(outcome)
    &&& x.0.pending == (PendingModel::Finished { outcome })
    &&& store_of(x.0) == s
}

/// Where a call that the recursion ends with `r` leaves the resolver that began it in
/// `st`: back with the caller on success, finished on error.
pub open spec fn call_end(x: (StateModel, RequestModel), st: StateModel, r: (Store, Result<(), ErrorModel>)) -> bool {
    match r.1 {
        Ok(()) => x == return_ok(with_store(st, r.0)),
        Err(e) => finished_with(x, r.0, Err(e)),
    }
}

proof fn lemma_drive_one(w: World, x: (StateModel, RequestModel))
    ensures
        drive(w, x, 0) == x,
        drive(w, x, 1) == step_spec(x.0, reply_for(w, x.1)),
{
    assert(drive(w, step_spec(x.0, reply_for(w, x.1)), 0) == step_spec(x.0, reply_for(w, x.1)));
}

proof fn lemma_begin_ignores_pending(st: StateModel, package: Seq<char>, range: Seq<char>, q: PendingModel)
    ensures
        begin_call(StateModel { pending: q, ..st }, package, range) == begin_call(st, package, range),
    decreases remaining(st.frames), 1int,
{
    if st.resolved.dom().contains(package) {
        lemma_return_ignores_pending(st, q);
    }
}

proof fn lemma_return_ignores_pending(st: StateModel, q: PendingModel)
    ensures
        return_ok(StateModel { pending: q, ..st }) == return_ok(st),
    decreases remaining(st.frames), 0int,
{
    if st.frames.len() > 0 {
        let f = st.frames.last();
        let lock = if f.next < f.deps.len() {
            record_dependency(st.lock, st.resolved, f.package, f.deps[f.next as int].0)
        } else {
            st.lock
        };
        if f.next + 1 < f.deps.len() {
            let f2 = FrameModel { next: f.next + 1, ..f };
            let st2 = StateModel { lock, frames: st.frames.drop_last().push(f2), ..st };
            assert(st2.frames.drop_last() =~= st.frames.drop_last());
            lemma_begin_ignores_pending(st2, f.deps[f.next + 1int].0, f.deps[f.next + 1int].1, q);
        } else {
            lemma_return_ignores_pending(StateModel { lock, frames: st.frames.drop_last(), ..st }, q);
        }
    }
}

proof fn lemma_call(w: World, fuel: nat, st: StateModel, package: Seq<char>, range: Seq<char>)
    requires
        resolve(w, fuel, store_of(st), package, range) is Some,
    ensures
        exists|n: nat| call_end(
            #[trigger] drive(w, begin_call(st, package, range), n),
            st,
            resolve(w, fuel, store_of(st), package, range)->Some_0,
        ),
    decreases fuel, 0nat,
{
    let s = store_of(st);
    let x = begin_call(st, package, range);
    let r = resolve(w, fuel, s, package, range)->Some_0;
    assert(with_store(st, s) == st);
    lemma_drive_one(w, x);
    if s.resolved.dom().contains(package) {
        assert(call_end(drive(w, x, 0), st, r));
    } else {
        let meta = if s.lock.dom().contains(package) {
            Ok(locked_meta(s.lock[package]))
        } else {
            (w.metadata)(package, range)
        };
        // Reaching the install request takes one step when the version is looked up.
        let k: nat = if s.lock.dom().contains(package) { 0 } else { 1 };
        match meta {
            Err(e) => {
                assert(call_end(drive(w, x, 1), st, r));
            },
            Ok(m) => {
                let xi = settle(st, PendingModel::Install { package, metadata: m });
                assert(drive(w, x, k) == xi);
                lemma_drive_one(w, xi);
                lemma_drive_add(w, x, k, 1);
                match (w.install)(package, m) {
                    Err(e) => {
                        assert(call_end(drive(w, x, k + 1), st, r));
                    },
                    Ok(()) => {
                        let s2 = Store {
                            resolved: s.resolved.insert(package, m.version),
                            lock: s.lock.insert(
                                package,
                                LockedModel {
                                    resolved: m.version,
                                    tarball: m.tarball,
                                    sha512: m.integrity,
                                    dependencies: Map::empty(),
                                },
                            ),
                        };
                        let st2 = with_store(xi.0, s2);
                        let xm = settle(st2, PendingModel::Manifest { package });
                        assert(drive(w, x, k + 1) == xm);
                        lemma_drive_one(w, xm);
                        lemma_drive_add(w, x, k + 1, 1);
                        assert(with_store(xm.0, s2) == xm.0);
                        assert(with_store(st, s2).frames == xm.0.frames);
                        match (w.manifest)(package) {
                            None => {
                                lemma_return_ignores_pending(with_store(st, s2), xm.0.pending);
                                assert(return_ok(xm.0) == return_ok(with_store(st, s2)));
                                assert(call_end(drive(w, x, k + 2), st, r));
                            },
                            Some(deps) => {
                                if deps.len() == 0 {
                                    lemma_return_ignores_pending(with_store(st, s2), xm.0.pending);
                                    assert(return_ok(xm.0) == return_ok(with_store(st, s2)));
                                    assert(call_end(drive(w, x, k + 2), st, r));
                                } else {
                                    let st3 = StateModel {
                                        frames: xm.0.frames.push(FrameModel { package, deps, next: 0 }),
                                        ..xm.0
                                    };
                                    assert(drive(w, x, k + 2) == begin_call(st3, deps[0].0, deps[0].1));
                                    assert(store_of(st3) == s2);
                                    lemma_deps(w, (fuel - 1) as nat, st3, xm.0.frames, package, deps, 0);
                                    let rd = resolve_deps(w, (fuel - 1) as nat, s2, package, deps, 0)->Some_0;
                                    let n = choose|n: nat| deps_end(
                                        #[trigger] drive(w, begin_call(st3, deps[0].0, deps[0].1), n),
                                        st3,
                                        xm.0.frames,
                                        rd,
                                    );
                                    lemma_drive_add(w, x, k + 2, n);
                                    lemma_return_ignores_pending(with_store(st, rd.0), st3.pending);
                                    assert(with_store(StateModel { frames: xm.0.frames, ..st3 }, rd.0)
                                        == StateModel { pending: st3.pending, ..with_store(st, rd.0) });
                                    assert(call_end(drive(w, x, k + 2 + n), st, r));
                                }
                            },
                        }
                    },
                }
            },
        }
    }
}

/// Where installing the dependencies from `i` on leaves the resolver: the parent's frame
/// popped and control back with its own caller on success, finished on error.
pub open spec fn deps_end(
    x: (StateModel, RequestModel),
    st: StateModel,
    below: Seq<FrameModel>,
    r: (Store, Result<(), ErrorModel>),
) -> bool {
    match r.1 {
        Ok(()) => x == return_ok(with_store(StateModel { frames: below, ..st }, r.0)),
        Err(e) => finished_with(x, r.0, Err(e)),
    }
}

proof fn lemma_deps(
    w: World,
    fuel: nat,
    st: StateModel,
    below: Seq<FrameModel>,
    parent: Seq<char>,
    deps: Seq<(Seq<char>, Seq<char>)>,
    i: nat,
)
    requires
        i < deps.len(),
        st.frames == below.push(FrameModel { package: parent, deps, next: i }),
        resolve_deps(w, fuel, store_of(st), parent, deps, i) is Some,
    ensures
        exists|n: nat| deps_end(
            #[trigger] drive(w, begin_call(st, deps[i as int].0, deps[i as int].1), n),
            st,
            below,
            resolve_deps(w, fuel, store_of(st), parent, deps, i)->Some_0,
        ),
    decreases fuel, deps.len() - i + 1,
{
    let s = store_of(st);
    let x = begin_call(st, deps[i as int].0, deps[i as int].1);
    let r1 = resolve(w, fuel, s, deps[i as int].0, deps[i as int].1);
    let r = resolve_deps(w, fuel, s, parent, deps, i)->Some_0;
    lemma_call(w, fuel, st, deps[i as int].0, deps[i as int].1);
    let n1 = choose|n: nat| call_end(#[trigger] drive(w, x, n), st, r1->Some_0);
    let s1 = r1->Some_0.0;
    match r1->Some_0.1 {
        Err(e) => {
            assert(deps_end(drive(w, x, n1), st, below, r));
        },
        Ok(()) => {
            let st1 = with_store(st, s1);
            assert(st1.frames.last() == FrameModel { package: parent, deps, next: i });
            assert(st1.frames.drop_last() == below);
            let lock = record_dependency(s1.lock, s1.resolved, parent, deps[i as int].0);
            let s1r = Store { lock, ..s1 };
            if i + 1 < deps.len() {
                let f2 = FrameModel { package: parent, deps, next: i + 1 };
                let st2 = StateModel { lock, frames: st1.frames.drop_last().push(f2), ..st1 };
                assert(return_ok(st1) == begin_call(st2, deps[i + 1int].0, deps[i + 1int].1));
                assert(store_of(st2) == s1r);
                lemma_deps(w, fuel, st2, below, parent, deps, i + 1);
                let r2 = resolve_deps(w, fuel, s1r, parent, deps, (i + 1) as nat)->Some_0;
                let n2 = choose|n: nat| deps_end(
                    #[trigger] drive(w, begin_call(st2, deps[i + 1int].0, deps[i + 1int].1), n),
                    st2,
                    below,
                    r2,
                );
                lemma_drive_add(w, x, n1, n2);
                assert(with_store(StateModel { frames: below, ..st2 }, r2.0) == with_store(
                    StateModel { frames: below, ..st },
                    r2.0,
                ));
                assert(deps_end(drive(w, x, n1 + n2), st, below, r));
            } else {
                assert(return_ok(st1) == return_ok(with_store(StateModel { frames: below, ..st }, s1r)));
                assert(deps_end(drive(w, x, n1), st, below, r));
            }
        },
    }
}

/// Fed the answers of `w`, the resolver started on `package` finishes after some number
/// of steps exactly as the recursive install-and-resolve does: with the same outcome,
/// the same lock file plugins and the same resolved versions.
pub proof fn lemma_resolver_follows_recursion(
    w: World,
    fuel: nat,
    lock: Map<Seq<char>, LockedModel>,
    resolved: Map<Seq<char>, Seq<char>>,
    package: Seq<char>,
    range: Seq<char>,
)
    requires
        resolve(w, fuel, Store { lock, resolved }, package, range) is Some,
    ensures
        exists|n: nat| finished_with(
            #[trigger] drive(w, begin_call(Resolver::initial(lock, resolved), package, range), n),
            resolve(w, fuel, Store { lock, resolved }, package, range)->Some_0.0,
            resolve(w, fuel, Store { lock, resolved }, package, range)->Some_0.1,
        ),
{
    let st = Resolver::initial(lock, resolved);
    assert(store_of(st) == Store { lock, resolved });
    lemma_call(w, fuel, st, package, range);
    let r = resolve(w, fuel, Store { lock, resolved }, package, range)->Some_0;
    let n = choose|n: nat| call_end(#[trigger] drive(w, begin_call(st, package, range), n), st, r);
    assert(with_store(st, r.0).frames.len() == 0);
    let x = drive(w, begin_call(st, package, range), n);
    assert(call_end(x, st, r));
    if r.1 is Ok {
        {
            assert(x == return_ok(with_store(st, r.0)));
            assert(return_ok(with_store(st, r.0)) == settle(
                with_store(st, r.0),
                PendingModel::Finished { outcome: Ok(()) },
            ));
            assert(store_of(with_store(st, r.0)) == r.0);
            assert(request_for(PendingModel::Finished { outcome: Ok(()) }) == RequestModel::Done(Ok(())));
            let u: () = r.1->Ok_0;
            assert(r.1 == Ok::<(), ErrorModel>(u));
            assert(x.1 == RequestModel::Done(r.1));
            assert(x.0.pending == (PendingModel::Finished { outcome: r.1 }));
            assert(finished_with(x, r.0, r.1));
        }
    } else {
        assert(finished_with(x, r.0, r.1));
    }
    assert(finished_with(drive(w, begin_call(st, package, range), n), r.0, r.1));
}


/// Every resolved package is locked, at the version it resolved to.
pub open spec fn lock_covers_resolved(st: StateModel) -> bool {
    forall|p: Seq<char>| #[trigger] st.resolved.dom().contains(p) ==> st.lock.dom().contains(p)
        && st.lock[p].resolved == st.resolved[p]
}

proof fn lemma_begin_keeps_cover(st: StateModel, package: Seq<char>, range: Seq<char>)
    requires
        lock_covers_resolved(st),
    ensures
        lock_covers_resolved(begin_call(st, package, range).0),
    decreases remaining(st.frames), 1int,
{
    if st.resolved.dom().contains(package) {
        lemma_return_keeps_cover(st);
    }
}

proof fn lemma_return_keeps_cover(st: StateModel)
    requires
        lock_covers_resolved(st),
    ensures
        lock_covers_resolved(return_ok(st).0),
    decreases remaining(st.frames), 0int,
{
    if st.frames.len() > 0 {
        let f = st.frames.last();
        let lock = if f.next < f.deps.len() {
            record_dependency(st.lock, st.resolved, f.package, f.deps[f.next as int].0)
        } else {
            st.lock
        };
        assert(lock_covers_resolved(StateModel { lock, ..st }));
        if f.next + 1 < f.deps.len() {
            let f2 = FrameModel { next: f.next + 1, ..f };
            let st2 = StateModel { lock, frames: st.frames.drop_last().push(f2), ..st };
            assert(st2.frames.drop_last() =~= st.frames.drop_last());
            lemma_begin_keeps_cover(st2, f.deps[f.next + 1int].0, f.deps[f.next + 1int].1);
        } else {
            lemma_return_keeps_cover(StateModel { lock, frames: st.frames.drop_last(), ..st });
        }
    }
}

/// Whatever the caller replies, every package the resolver has resolved stays in the
/// lock file at the version it resolved to.
pub proof fn lemma_step_keeps_lock_consistent(st: StateModel, reply: ReplyModel)
    requires
        lock_covers_resolved(st),
    ensures
        lock_covers_resolved(step_spec(st, reply).0),
{
    match st.pending {
        PendingModel::Install { package, metadata } => {
            match reply {
                ReplyModel::Installed(Ok(())) => {
                    let locked = LockedModel {
                        resolved: metadata.version,
                        tarball: metadata.tarball,
                        sha512: metadata.integrity,
                        dependencies: Map::empty(),
                    };
                    let st2 = StateModel {
                        resolved: st.resolved.insert(package, metadata.version),
                        lock: st.lock.insert(package, locked),
                        ..st
                    };
                    assert(lock_covers_resolved(st2));
                },
                _ => {},
            }
        },
        PendingModel::Manifest { package } => {
            match reply {
                ReplyModel::PluginManifest(Some(deps)) => {
                    if deps.len() == 0 {
                        lemma_return_keeps_cover(st);
                    } else {
                        let st2 = StateModel {
                            frames: st.frames.push(FrameModel { package, deps, next: 0 }),
                            ..st
                        };
                        lemma_begin_keeps_cover(st2, deps[0].0, deps[0].1);
                    }
                },
                ReplyModel::PluginManifest(None) => {
                    lemma_return_keeps_cover(st);
                },
                _ => {},
            }
        },
        _ => {},
    }
}

/// Starting on a lock file that covers the resolved versions keeps it covering them.
pub proof fn lemma_start_keeps_lock_consistent(
    lock: Map<Seq<char>, LockedModel>,
    resolved: Map<Seq<char>, Seq<char>>,
    package: Seq<char>,
    range: Seq<char>,
)
    requires
        lock_covers_resolved(Resolver::initial(lock, resolved)),
    ensures
        lock_covers_resolved(begin_call(Resolver::initial(lock, resolved), package, range).0),
{
    lemma_begin_keeps_cover(Resolver::initial(lock, resolved), package, range);
}

/// A package that is locked but not yet resolved is installed at its locked version,
/// without asking the registry.
pub proof fn lemma_locked_version_is_reused(st: StateModel, package: Seq<char>, range: Seq<char>)
    requires
        !st.resolved.dom().contains(package),
        st.lock.dom().contains(package),
    ensures
        begin_call(st, package, range).1 == (RequestModel::Install {
            package,
            metadata: locked_meta(st.lock[package]),
        }),
{
}

/// A package that is locked and not yet resolved is installed with exactly its lock
/// entry (the locked version, tarball URL and checksum), and once installed it is
/// resolved at that version and locked with that same version, tarball and checksum.
pub proof fn lemma_locked_install_uses_lock_entry(st: StateModel, package: Seq<char>, range: Seq<char>)
    requires
        !st.resolved.dom().contains(package),
        st.lock.dom().contains(package),
    ensures
        begin_call(st, package, range).1 == (RequestModel::Install {
            package,
            metadata: MetaModel {
                version: st.lock[package].resolved,
                tarball: st.lock[package].tarball,
                integrity: st.lock[package].sha512,
            },
        }),
        step_spec(begin_call(st, package, range).0, ReplyModel::Installed(Ok(()))).0.resolved[package]
            == st.lock[package].resolved,
        step_spec(begin_call(st, package, range).0, ReplyModel::Installed(Ok(()))).0.lock[package].resolved
            == st.lock[package].resolved,
        step_spec(begin_call(st, package, range).0, ReplyModel::Installed(Ok(()))).0.lock[package].tarball
            == st.lock[package].tarball,
        step_spec(begin_call(st, package, range).0, ReplyModel::Installed(Ok(()))).0.lock[package].sha512
            == st.lock[package].sha512,
{
}

/// A package that is locked but not yet resolved, and whose plugin directory is in
/// place, is not downloaded again: its install request carries the locked version and
/// checksum, which the lock file matches.
pub proof fn lemma_locked_install_skips_download(st: StateModel, package: Seq<char>, range: Seq<char>)
    requires
        !st.resolved.dom().contains(package),
        st.lock.dom().contains(package),
    ensures
        begin_call(st, package, range).1 is Install,
        !download_needed_spec(
            begin_call(st, package, range).0.lock,
            package,
            begin_call(st, package, range).1->Install_metadata,
            true,
        ),
{
}

/// A package already resolved at a version outside a newly required range ends the
/// run with a version conflict, and no request for it goes out.
pub proof fn lemma_conflict_ends_run(st: StateModel, package: Seq<char>, range: Seq<char>)
    requires
        st.resolved.dom().contains(package),
        semver_range_parse(range) is Ok,
        semver_version_parse(st.resolved[package]) is Ok,
        !semver_matches(range, st.resolved[package]),
    ensures
        begin_call(st, package, range).1 == RequestModel::Done(
            Err(
                ErrorModel::VersionConflict {
                    package,
                    message: crate::resolver::conflict_message(st.resolved[package], range),
                },
            ),
        ),
{
}

/// A finished resolver stays finished: any reply repeats the outcome and changes nothing.
pub proof fn lemma_finished_is_final(st: StateModel, reply: ReplyModel)
    requires
        st.pending is Finished,
    ensures
        step_spec(st, reply) == (st, RequestModel::Done(st.pending->outcome)),
{
}

} // verus!
