//! Laws of a whole run of the resolver: what only grows from step to step, that no
//! package is installed twice, and that a run over a finite set of packages finishes,
//! manifests that list each other in a cycle included.

use vstd::prelude::*;
use crate::lockfile::LockedModel;
use crate::resolver::{
    FrameModel, PendingModel, ReplyModel, RequestModel, Resolver, StateModel, begin_call,
    record_dependency, remaining, request_for, return_ok, step_spec,
};
use crate::resolution::{World, drive, lemma_drive_add, reply_for};

verus! {

/// A lock entry kept: the same version, tarball and checksum, and every dependency it
/// recorded still recorded.
pub open spec fn entry_kept(a: LockedModel, b: LockedModel) -> bool {
    &&& b.resolved == a.resolved
    &&& b.tarball == a.tarball
    &&& b.sha512 == a.sha512
    &&& forall|d: Seq<char>| #[trigger] a.dependencies.dom().contains(d) ==> b.dependencies.dom().contains(d)
}

/// `b` extends `a`: every resolved package stays resolved at the same version, every
/// locked package stays locked, and the lock entry of a resolved package is kept.
pub open spec fn store_extends(a: StateModel, b: StateModel) -> bool {
    &&& forall|k: Seq<char>| #[trigger] a.resolved.dom().contains(k) ==> b.resolved.dom().contains(k)
        && b.resolved[k] == a.resolved[k]
    &&& forall|k: Seq<char>| #[trigger] a.lock.dom().contains(k) ==> b.lock.dom().contains(k)
    &&& forall|k: Seq<char>| a.resolved.dom().contains(k) && #[trigger] a.lock.dom().contains(k) ==> entry_kept(
        a.lock[k],
        b.lock[k],
    )
}

/// The package the resolver waits to look up or install is not resolved yet.
pub open spec fn pending_fresh(st: StateModel) -> bool {
    match st.pending {
        PendingModel::Metadata { package, .. } => !st.resolved.dom().contains(package),
        PendingModel::Install { package, .. } => !st.resolved.dom().contains(package),
        _ => true,
    }
}

/// A resolver and the request it has out: the request is the one it waits for, and
/// that one concerns a package not resolved yet.
pub open spec fn sound_run(x: (StateModel, RequestModel)) -> bool {
    &&& pending_fresh(x.0)
    &&& x.1 == request_for(x.0.pending)
}

proof fn lemma_extends_refl(a: StateModel)
    ensures
        store_extends(a, a),
{
}

proof fn lemma_extends_trans(a: StateModel, b: StateModel, c: StateModel)
    requires
        store_extends(a, b),
        store_extends(b, c),
    ensures
        store_extends(a, c),
{
    assert forall|k: Seq<char>| a.resolved.dom().contains(k) && #[trigger] a.lock.dom().contains(k) implies entry_kept(
        a.lock[k],
        c.lock[k],
    ) by {
        assert(b.resolved.dom().contains(k) && b.lock.dom().contains(k));
        assert(entry_kept(a.lock[k], b.lock[k]));
        assert(entry_kept(b.lock[k], c.lock[k]));
    }
}

proof fn lemma_record_extends(st: StateModel, parent: Seq<char>, dep: Seq<char>)
    ensures
        store_extends(st, StateModel { lock: record_dependency(st.lock, st.resolved, parent, dep), ..st }),
{
    let st2 = StateModel { lock: record_dependency(st.lock, st.resolved, parent, dep), ..st };
    assert forall|k: Seq<char>| st.resolved.dom().contains(k) && #[trigger] st.lock.dom().contains(k) implies entry_kept(
        st.lock[k],
        st2.lock[k],
    ) by {
    }
}

/// What beginning a package does to the resolver's store and request.
proof fn lemma_begin(st: StateModel, package: Seq<char>, range: Seq<char>)
    ensures
        store_extends(st, begin_call(st, package, range).0),
        begin_call(st, package, range).0.resolved == st.resolved,
        pending_fresh(begin_call(st, package, range).0),
        begin_call(st, package, range).1 == request_for(begin_call(st, package, range).0.pending),
        !(begin_call(st, package, range).0.pending is Manifest),
    decreases remaining(st.frames), 1int,
{
    if st.resolved.dom().contains(package) {
        lemma_return(st);
    }
}

/// What finishing a package successfully does to the resolver's store and request.
proof fn lemma_return(st: StateModel)
    ensures
        store_extends(st, return_ok(st).0),
        return_ok(st).0.resolved == st.resolved,
        pending_fresh(return_ok(st).0),
        return_ok(st).1 == request_for(return_ok(st).0.pending),
        !(return_ok(st).0.pending is Manifest),
    decreases remaining(st.frames), 0int,
{
    if st.frames.len() > 0 {
        let f = st.frames.last();
        let lock = if f.next < f.deps.len() {
            record_dependency(st.lock, st.resolved, f.package, f.deps[f.next as int].0)
        } else {
            st.lock
        };
        assert(store_extends(st, StateModel { lock, ..st })) by {
            if f.next < f.deps.len() {
                lemma_record_extends(st, f.package, f.deps[f.next as int].0);
            }
        }
        if f.next + 1 < f.deps.len() {
            let f2 = FrameModel { next: f.next + 1, ..f };
            let st2 = StateModel { lock, frames: st.frames.drop_last().push(f2), ..st };
            assert(st2.frames.drop_last() =~= st.frames.drop_last());
            lemma_begin(st2, f.deps[f.next + 1int].0, f.deps[f.next + 1int].1);
            lemma_extends_trans(st, st2, return_ok(st).0);
        } else {
            let st2 = StateModel { lock, frames: st.frames.drop_last(), ..st };
            lemma_return(st2);
            lemma_extends_trans(st, st2, return_ok(st).0);
        }
    }
}

/// One step, whatever the caller replies, keeps what was resolved at its version and
/// what was locked in the lock file (a resolved package's entry only gains recorded
/// dependencies), and the next request again concerns a package not resolved yet.
pub proof fn lemma_step_extends(st: StateModel, reply: ReplyModel)
    requires
        pending_fresh(st),
    ensures
        store_extends(st, step_spec(st, reply).0),
        sound_run(step_spec(st, reply)),
{
    lemma_extends_refl(st);
    match st.pending {
        PendingModel::Install { package, metadata } => {
            match reply {
                ReplyModel::Installed(Ok(())) => {
                    let locked = LockedModel {
                        resolved: metadata.version,
                        tarball: metadata.tarball,
                        sha512: metadata.integrity,
                        dependencies: Map::empty(),
                    };
                    let st2 = StateModel {
                        resolved: st.resolved.insert(package, metadata.version),
                        lock: st.lock.insert(package, locked),
                        ..st
                    };
                    assert forall|k: Seq<char>| st.resolved.dom().contains(k) && #[trigger] st.lock.dom().contains(k) implies entry_kept(
                        st.lock[k],
                        st2.lock[k],
                    ) by {
                        assert(k != package);
                    }
                },
                _ => {},
            }
        },
        PendingModel::Manifest { package } => {
            match reply {
                ReplyModel::PluginManifest(Some(deps)) => {
                    if deps.len() == 0 {
                        lemma_return(st);
                    } else {
                        let st2 = StateModel {
                            frames: st.frames.push(FrameModel { package, deps, next: 0 }),
                            ..st
                        };
                        lemma_begin(st2, deps[0].0, deps[0].1);
                    }
                },
                ReplyModel::PluginManifest(None) => {
                    lemma_return(st);
                },
                _ => {},
            }
        },
        _ => {},
    }
}

/// Starting a run gives a sound resolver that has changed nothing yet.
pub proof fn lemma_start_sound(
    lock: Map<Seq<char>, LockedModel>,
    resolved: Map<Seq<char>, Seq<char>>,
    package: Seq<char>,
    range: Seq<char>,
)
    ensures
        sound_run(begin_call(Resolver::initial(lock, resolved), package, range)),
        store_extends(Resolver::initial(lock, resolved), begin_call(Resolver::initial(lock, resolved), package, range).0),
{
    lemma_begin(Resolver::initial(lock, resolved), package, range);
}

/// Over any number of the world's answers, a sound run stays sound, and what it had
/// resolved or locked stays so.
pub proof fn lemma_drive_extends(w: World, x: (StateModel, RequestModel), n: nat)
    requires
        sound_run(x),
    ensures
        sound_run(drive(w, x, n)),
        store_extends(x.0, drive(w, x, n).0),
    decreases n,
{
    lemma_extends_refl(x.0);
    if n > 0 {
        let y = step_spec(x.0, reply_for(w, x.1));
        lemma_step_extends(x.0, reply_for(w, x.1));
        lemma_drive_extends(w, y, (n - 1) as nat);
        lemma_extends_trans(x.0, y.0, drive(w, x, n).0);
    }
}

/// A finished resolver answered by the world stays as it is.
proof fn lemma_finished_stays(w: World, x: (StateModel, RequestModel), n: nat)
    requires
        sound_run(x),
        x.0.pending is Finished,
    ensures
        drive(w, x, n) == x,
    decreases n,
{
    if n > 0 {
        lemma_finished_stays(w, step_spec(x.0, reply_for(w, x.1)), (n - 1) as nat);
    }
}

/// Each package is installed at most once in a run, and none that was resolved when
/// the run began: two install requests at different steps name different packages,
/// and neither is among the packages resolved at the start.
pub proof fn lemma_installed_once(w: World, x: (StateModel, RequestModel), i: nat, j: nat)
    requires
        sound_run(x),
        i < j,
        drive(w, x, i).1 is Install,
        drive(w, x, j).1 is Install,
    ensures
        drive(w, x, i).1->Install_package != drive(w, x, j).1->Install_package,
        !x.0.resolved.dom().contains(drive(w, x, i).1->Install_package),
        !x.0.resolved.dom().contains(drive(w, x, j).1->Install_package),
{
    let y = drive(w, x, i);
    lemma_drive_extends(w, x, i);
    lemma_drive_extends(w, x, j);
    let p = y.1->Install_package;
    assert(y.0.pending is Install);
    let z = step_spec(y.0, reply_for(w, y.1));
    lemma_drive_add(w, x, i, (j - i) as nat);
    assert(drive(w, y, (j - i) as nat) == drive(w, z, (j - i - 1) as nat));
    lemma_drive_add(w, x, i, 1);
    lemma_step_extends(y.0, reply_for(w, y.1));
    if z.0.pending is Finished {
        lemma_finished_stays(w, z, (j - i - 1) as nat);
    } else {
        assert(z.0.resolved.dom().contains(p));
        lemma_drive_extends(w, z, (j - i - 1) as nat);
    }
}

/// None of the packages in `r0` is being installed: each stays resolved, none is a
/// package whose dependencies are being installed or whose manifest is awaited.
pub open spec fn apart_from(st: StateModel, r0: Set<Seq<char>>) -> bool {
    &&& r0.subset_of(st.resolved.dom())
    &&& forall|k: int| 0 <= k < st.frames.len() ==> !r0.contains(#[trigger] st.frames[k].package)
    &&& (st.pending is Manifest ==> !r0.contains(st.pending->Manifest_package))
}

/// `a` and `b` hold the same lock entries, or the same absence of one, for `r0`.
pub open spec fn same_entries(a: Map<Seq<char>, LockedModel>, b: Map<Seq<char>, LockedModel>, r0: Set<Seq<char>>) -> bool {
    forall|k: Seq<char>| #[trigger] r0.contains(k) ==> a.dom().contains(k) == b.dom().contains(k) && (a.dom().contains(k)
        ==> a[k] == b[k])
}

proof fn lemma_begin_apart(st: StateModel, package: Seq<char>, range: Seq<char>, r0: Set<Seq<char>>)
    requires
        apart_from(st, r0),
    ensures
        apart_from(begin_call(st, package, range).0, r0),
        same_entries(st.lock, begin_call(st, package, range).0.lock, r0),
    decreases remaining(st.frames), 1int,
{
    if st.resolved.dom().contains(package) {
        lemma_return_apart(st, r0);
    } else {
        let r = begin_call(st, package, range).0;
        assert(r.frames == st.frames);
    }
}

proof fn lemma_return_apart(st: StateModel, r0: Set<Seq<char>>)
    requires
        apart_from(st, r0),
    ensures
        apart_from(return_ok(st).0, r0),
        same_entries(st.lock, return_ok(st).0.lock, r0),
    decreases remaining(st.frames), 0int,
{
    if st.frames.len() > 0 {
        let f = st.frames.last();
        assert(!r0.contains(st.frames[st.frames.len() - 1].package));
        let lock = if f.next < f.deps.len() {
            record_dependency(st.lock, st.resolved, f.package, f.deps[f.next as int].0)
        } else {
            st.lock
        };
        assert(same_entries(st.lock, lock, r0));
        if f.next + 1 < f.deps.len() {
            let f2 = FrameModel { next: f.next + 1, ..f };
            let st2 = StateModel { lock, frames: st.frames.drop_last().push(f2), ..st };
            assert(st2.frames.drop_last() =~= st.frames.drop_last());
            assert forall|k: int| 0 <= k < st2.frames.len() implies !r0.contains(#[trigger] st2.frames[k].package) by {
                assert(st2.frames[k].package == st.frames[k].package);
            }
            lemma_begin_apart(st2, f.deps[f.next + 1int].0, f.deps[f.next + 1int].1, r0);
        } else {
            let st2 = StateModel { lock, frames: st.frames.drop_last(), ..st };
            assert forall|k: int| 0 <= k < st2.frames.len() implies !r0.contains(#[trigger] st2.frames[k].package) by {
                assert(st2.frames[k] == st.frames[k]);
            }
            lemma_return_apart(st2, r0);
        }
    }
}

/// One step keeps the packages of `r0` apart, and their lock entries as they were.
proof fn lemma_step_apart(st: StateModel, reply: ReplyModel, r0: Set<Seq<char>>)
    requires
        pending_fresh(st),
        apart_from(st, r0),
    ensures
        apart_from(step_spec(st, reply).0, r0),
        same_entries(st.lock, step_spec(st, reply).0.lock, r0),
{
    match st.pending {
        PendingModel::Install { package, metadata } => {
            match reply {
                ReplyModel::Installed(Ok(())) => {
                    assert(!r0.contains(package));
                },
                _ => {},
            }
        },
        PendingModel::Manifest { package } => {
            match reply {
                ReplyModel::PluginManifest(Some(deps)) => {
                    if deps.len() == 0 {
                        lemma_return_apart(st, r0);
                    } else {
                        let st2 = StateModel {
                            frames: st.frames.push(FrameModel { package, deps, next: 0 }),
                            ..st
                        };
                        assert forall|k: int| 0 <= k < st2.frames.len() implies !r0.contains(#[trigger] st2.frames[k].package) by {
                            if k < st.frames.len() {
                                assert(st2.frames[k] == st.frames[k]);
                            }
                        }
                        lemma_begin_apart(st2, deps[0].0, deps[0].1, r0);
                    }
                },
                ReplyModel::PluginManifest(None) => {
                    lemma_return_apart(st, r0);
                },
                _ => {},
            }
        },
        _ => {},
    }
}

proof fn lemma_drive_apart(w: World, x: (StateModel, RequestModel), r0: Set<Seq<char>>, n: nat)
    requires
        sound_run(x),
        apart_from(x.0, r0),
    ensures
        apart_from(drive(w, x, n).0, r0),
        same_entries(x.0.lock, drive(w, x, n).0.lock, r0),
    decreases n,
{
    if n > 0 {
        let y = step_spec(x.0, reply_for(w, x.1));
        lemma_step_apart(x.0, reply_for(w, x.1), r0);
        lemma_step_extends(x.0, reply_for(w, x.1));
        lemma_drive_apart(w, y, r0, (n - 1) as nat);
    }
}

/// Over a whole run, however many answers it takes, the packages resolved before it
/// began keep their versions and their lock entries exactly (none is installed again
/// or records dependencies), every locked package stays locked, and every resolved one
/// stays resolved at its version.
pub proof fn lemma_run_keeps_earlier(
    w: World,
    lock: Map<Seq<char>, LockedModel>,
    resolved: Map<Seq<char>, Seq<char>>,
    package: Seq<char>,
    range: Seq<char>,
    n: nat,
)
    ensures
        store_extends(
            Resolver::initial(lock, resolved),
            drive(w, begin_call(Resolver::initial(lock, resolved), package, range), n).0,
        ),
        same_entries(lock, drive(w, begin_call(Resolver::initial(lock, resolved), package, range), n).0.lock, resolved.dom()),
{
    let st = Resolver::initial(lock, resolved);
    let x = begin_call(st, package, range);
    lemma_start_sound(lock, resolved, package, range);
    lemma_begin_apart(st, package, range, resolved.dom());
    lemma_drive_apart(w, x, resolved.dom(), n);
    lemma_drive_extends(w, x, n);
    lemma_extends_trans(st, x.0, drive(w, x, n).0);
}

/// Every dependency that the world's manifests list is one of `names`, a finite set.
pub open spec fn closed_world(w: World, names: Set<Seq<char>>) -> bool {
    &&& names.finite()
    &&& forall|p: Seq<char>, i: int| (w.manifest)(p) is Some && 0 <= i < (w.manifest)(p)->Some_0.len() ==> names.contains(
        #[trigger] (w.manifest)(p)->Some_0[i].0,
    )
}

/// Every package the resolver waits on or will begin is one of `names`.
pub open spec fn within_names(st: StateModel, names: Set<Seq<char>>) -> bool {
    &&& forall|k: int, i: int| 0 <= k < st.frames.len() && 0 <= i < st.frames[k].deps.len() ==> names.contains(
        #[trigger] st.frames[k].deps[i].0,
    )
    &&& match st.pending {
        PendingModel::Metadata { package, .. } => names.contains(package),
        PendingModel::Install { package, .. } => names.contains(package),
        PendingModel::Manifest { package } => names.contains(package),
        PendingModel::Finished { .. } => true,
    }
}

/// How far a run is from finishing: three per package of `names` not resolved yet, plus
/// what the pending request still leads to.
pub open spec fn distance(st: StateModel, names: Set<Seq<char>>) -> nat {
    3 * names.difference(st.resolved.dom()).len() + match st.pending {
        PendingModel::Metadata { .. } => 2nat,
        PendingModel::Install { .. } => 1nat,
        PendingModel::Manifest { .. } => 3nat,
        PendingModel::Finished { .. } => 0nat,
    }
}

proof fn lemma_begin_within(st: StateModel, package: Seq<char>, range: Seq<char>, names: Set<Seq<char>>)
    requires
        within_names(st, names),
        names.contains(package),
    ensures
        within_names(begin_call(st, package, range).0, names),
    decreases remaining(st.frames), 1int,
{
    if st.resolved.dom().contains(package) {
        lemma_return_within(st, names);
    } else {
        let r = begin_call(st, package, range).0;
        assert(r.frames == st.frames);
    }
}

proof fn lemma_return_within(st: StateModel, names: Set<Seq<char>>)
    requires
        within_names(st, names),
    ensures
        within_names(return_ok(st).0, names),
    decreases remaining(st.frames), 0int,
{
    if st.frames.len() > 0 {
        let f = st.frames.last();
        let lock = if f.next < f.deps.len() {
            record_dependency(st.lock, st.resolved, f.package, f.deps[f.next as int].0)
        } else {
            st.lock
        };
        if f.next + 1 < f.deps.len() {
            let f2 = FrameModel { next: f.next + 1, ..f };
            let st2 = StateModel { lock, frames: st.frames.drop_last().push(f2), ..st };
            assert(st2.frames.drop_last() =~= st.frames.drop_last());
            assert forall|k: int, i: int| 0 <= k < st2.frames.len() && 0 <= i < st2.frames[k].deps.len() implies names.contains(
                #[trigger] st2.frames[k].deps[i].0,
            ) by {
                assert(st2.frames[k].deps == st.frames[k].deps);
            }
            assert(names.contains(st.frames[st.frames.len() - 1].deps[f.next + 1int].0));
            lemma_begin_within(st2, f.deps[f.next + 1int].0, f.deps[f.next + 1int].1, names);
        } else {
            let st2 = StateModel { lock, frames: st.frames.drop_last(), ..st };
            assert forall|k: int, i: int| 0 <= k < st2.frames.len() && 0 <= i < st2.frames[k].deps.len() implies names.contains(
                #[trigger] st2.frames[k].deps[i].0,
            ) by {
                assert(st2.frames[k] == st.frames[k]);
            }
            lemma_return_within(st2, names);
        }
    }
}

/// One step with the world's answer brings an unfinished sound run within `names`
/// closer to its end.
proof fn lemma_step_closer(w: World, x: (StateModel, RequestModel), names: Set<Seq<char>>)
    requires
        closed_world(w, names),
        sound_run(x),
        within_names(x.0, names),
        !(x.0.pending is Finished),
    ensures
        within_names(step_spec(x.0, reply_for(w, x.1)).0, names),
        step_spec(x.0, reply_for(w, x.1)).0.pending is Finished || distance(
            step_spec(x.0, reply_for(w, x.1)).0,
            names,
        ) < distance(x.0, names),
{
    let st = x.0;
    let reply = reply_for(w, x.1);
    let y = step_spec(st, reply);
    match st.pending {
        PendingModel::Metadata { .. } => {},
        PendingModel::Install { package, metadata } => {
            match reply {
                ReplyModel::Installed(Ok(())) => {
                    let d = st.resolved.dom();
                    let d2 = d.insert(package);
                    assert(y.0.resolved.dom() =~= d2);
                    assert(names.difference(d2) =~= names.difference(d).remove(package));
                    vstd::set_lib::lemma_len_subset(names.difference(d), names);
                    vstd::set::axiom_set_remove_len(names.difference(d), package);
                },
                _ => {},
            }
        },
        PendingModel::Manifest { package } => {
            lemma_step_extends(st, reply);
            match (w.manifest)(package) {
                Some(deps) => {
                    if deps.len() == 0 {
                        lemma_return(st);
                        lemma_return_within(st, names);
                    } else {
                        let st2 = StateModel {
                            frames: st.frames.push(FrameModel { package, deps, next: 0 }),
                            ..st
                        };
                        assert forall|k: int, i: int| 0 <= k < st2.frames.len() && 0 <= i < st2.frames[k].deps.len() implies names.contains(
                            #[trigger] st2.frames[k].deps[i].0,
                        ) by {
                            if k < st.frames.len() {
                                assert(st2.frames[k] == st.frames[k]);
                                assert(names.contains(st.frames[k].deps[i].0));
                            } else {
                                assert(st2.frames[k].deps == (w.manifest)(package)->Some_0);
                                assert(names.contains((w.manifest)(package)->Some_0[i].0));
                            }
                        }
                        assert(names.contains((w.manifest)(package)->Some_0[0].0));
                        lemma_begin(st2, deps[0].0, deps[0].1);
                        lemma_begin_within(st2, deps[0].0, deps[0].1, names);
                    }
                },
                None => {
                    lemma_return(st);
                    lemma_return_within(st, names);
                },
            }
        },
        PendingModel::Finished { .. } => {},
    }
}

proof fn lemma_finishes_within(w: World, x: (StateModel, RequestModel), names: Set<Seq<char>>, n: nat)
    requires
        closed_world(w, names),
        sound_run(x),
        within_names(x.0, names),
        x.0.pending is Finished || distance(x.0, names) < n,
    ensures
        drive(w, x, n).0.pending is Finished,
    decreases n,
{
    if x.0.pending is Finished {
        lemma_finished_stays(w, x, n);
    } else {
        let y = step_spec(x.0, reply_for(w, x.1));
        lemma_step_closer(w, x, names);
        lemma_step_extends(x.0, reply_for(w, x.1));
        lemma_finishes_within(w, y, names, (n - 1) as nat);
    }
}

/// A run terminates when the packages it can meet form a finite set `names`, however
/// the manifests refer to each other (cycles included): with the world answering every
/// request, the resolver has finished after `3 * |names| + 4` answers at most.
pub proof fn lemma_run_finishes(
    w: World,
    lock: Map<Seq<char>, LockedModel>,
    resolved: Map<Seq<char>, Seq<char>>,
    package: Seq<char>,
    range: Seq<char>,
    names: Set<Seq<char>>,
)
    requires
        closed_world(w, names),
        names.contains(package),
    ensures
        drive(w, begin_call(Resolver::initial(lock, resolved), package, range), 3 * names.len() + 4).0.pending is Finished,
{
    let st = Resolver::initial(lock, resolved);
    let x = begin_call(st, package, range);
    lemma_start_sound(lock, resolved, package, range);
    assert(within_names(st, names));
    lemma_begin_within(st, package, range, names);
    let d = x.0.resolved.dom();
    vstd::set_lib::lemma_len_difference(names, d);
    lemma_finishes_within(w, x, names, 3 * names.len() + 4);
}

} // verus!
