//! Detected Unreal Engine installations: picking engine entries out of Epic's launcher
//! data, ordering them by version and dropping repeated install locations.

use vstd::prelude::*;
use std::cmp::Ordering;
use crate::paths::{main_separator, same_path, same_path_spec};
use crate::text::{text_option, text_option_str, split_char, split_on, lemma_split_nonempty, starts_with, str_eq};
use crate::versions::{Precedence, compare_versions, version_precedence, lemma_version_order_laws, flip};

verus! {

/// A detected Unreal Engine installation.
#[derive(Debug)]
pub struct UeInstall {
    /// Clean version string, e.g. `5.7.4`.
    pub version: String,
    /// Root directory of the engine install.
    pub path: String,
}

/// An installation as (version, path).
pub type InstallModel = (Seq<char>, Seq<char>);

impl View for UeInstall {
    type V = (Seq<char>, Seq<char>);

    open spec fn view(&self) -> (Seq<char>, Seq<char>) {
        (self.version@, self.path@)
    }
}

impl PartialEq for UeInstall {
    /// Same version text and the same path, compared by components with `/` as the
    /// separator.
    fn eq(&self, other: &Self) -> (r: bool) {
        str_eq(self.version.as_str(), other.version.as_str()) && same_path(
            self.path.as_str(),
            other.path.as_str(),
            '/',
        )
    }
}

impl vstd::std_specs::cmp::PartialEqSpecImpl for UeInstall {
    open spec fn obeys_eq_spec() -> bool {
        true
    }

    open spec fn eq_spec(&self, other: &UeInstall) -> bool {
        self.version@ == other.version@ && same_path_spec(self.path@, other.path@, '/')
    }
}

impl Eq for UeInstall {}

impl Clone for UeInstall {
    fn clone(&self) -> (r: Self)
        ensures
            r@ == self@,
    {
        UeInstall { version: self.version.clone(), path: self.path.clone() }
    }
}

/// One element of `InstallationList` in `LauncherInstalled.dat`: each field present
/// when the JSON entry holds it as a string.
#[derive(Debug, Clone)]
pub struct LauncherEntry {
    pub app_name: Option<String>,
    pub install_location: Option<String>,
    pub app_version: Option<String>,
}

pub struct LauncherEntryModel {
    pub app_name: Option<Seq<char>>,
    pub install_location: Option<Seq<char>>,
    pub app_version: Option<Seq<char>>,
}

impl View for LauncherEntry {
    type V = LauncherEntryModel;

    open spec fn view(&self) -> LauncherEntryModel {
        LauncherEntryModel {
            app_name: text_option(self.app_name),
            install_location: text_option(self.install_location),
            app_version: text_option(self.app_version),
        }
    }
}

pub open spec fn text_or_empty(o: Option<Seq<char>>) -> Seq<char> {
    match o {
        Some(s) => s,
        None => Seq::<char>::empty(),
    }
}

/// The installation an entry describes, if it is an engine (`AppName` starting with
/// `UE_`) with a non-empty location and a version: the `AppVersion` up to its first `-`.
pub open spec fn install_of(e: LauncherEntryModel) -> Option<InstallModel> {
    let name = text_or_empty(e.app_name);
    let version = split_on(text_or_empty(e.app_version), '-')[0];
    if !(name.len() >= 3 && name.take(3) == "UE_"@) {
        None
    } else if e.install_location is None || e.install_location->Some_0.len() == 0 {
        None
    } else if version.len() == 0 {
        None
    } else {
        Some((version, e.install_location->Some_0))
    }
}

/// The installations that a list of launcher entries describes, in list order.
pub open spec fn installs_of(entries: Seq<LauncherEntryModel>) -> Seq<InstallModel>
    decreases entries.len(),
{
    if entries.len() == 0 {
        Seq::<InstallModel>::empty()
    } else {
        let rest = installs_of(entries.drop_last());
        match install_of(entries.last()) {
            Some(i) => rest.push(i),
            None => rest,
        }
    }
}

pub open spec fn install_views(v: Seq<UeInstall>) -> Seq<InstallModel> {
    v.map_values(|u: UeInstall| u@)
}

fn install_from_entry(e: &LauncherEntry) -> (r: Option<UeInstall>)
    ensures
        match r {
            Some(u) => install_of(e@) == Some(u@),
            None => install_of(e@) is None,
        },
{
    let name: &str = match &e.app_name {
        Some(n) => n.as_str(),
        None => "",
    };
    proof {
        reveal_strlit("");
        reveal_strlit("UE_");
    }
    if !starts_with(name, "UE_") {
        return None;
    }
    let location = match &e.install_location {
        Some(l) => l,
        None => {
            return None;
        },
    };
    if location.as_str().unicode_len() == 0 {
        return None;
    }
    let app_version: &str = match &e.app_version {
        Some(v) => v.as_str(),
        None => "",
    };
    let pieces = split_char(app_version, '-');
    proof {
        lemma_split_nonempty(app_version@, '-');
        assert(pieces@.map_values(|p: String| p@)[0] == pieces@[0]@);
    }
    let version = pieces[0].clone();
    if version.as_str().unicode_len() == 0 {
        return None;
    }
    Some(UeInstall { version, path: location.clone() })
}

/// Appends to `out` the engine installations described by the launcher entries, in
/// order; nothing when the data holds no `InstallationList` array.
pub fn parse_installation_list(list: Option<&Vec<LauncherEntry>>, out: &mut Vec<UeInstall>)
    ensures
        install_views(final(out)@) == install_views(old(out)@) + match list {
            Some(l) => installs_of(l@.map_values(|e: LauncherEntry| e@)),
            None => Seq::<InstallModel>::empty(),
        },
{
    let list = match list {
        Some(l) => l,
        None => {
            proof {
                assert(install_views(old(out)@) + Seq::<InstallModel>::empty() =~= install_views(old(out)@));
            }
            return;
        },
    };
    let ghost start = install_views(out@);
    let ghost ev = list@.map_values(|e: LauncherEntry| e@);
    let mut i: usize = 0;
    proof {
        assert(ev.take(0) =~= Seq::<LauncherEntryModel>::empty());
        assert(start + installs_of(ev.take(0)) =~= start);
    }
    while i < list.len()
        invariant
            i <= list@.len(),
            ev == list@.map_values(|e: LauncherEntry| e@),
            install_views(out@) == start + installs_of(ev.take(i as int)),
        decreases list@.len() - i,
    {
        proof {
            assert(ev.take(i + 1).drop_last() =~= ev.take(i as int));
            assert(ev.take(i + 1).last() == list@[i as int]@);
        }
        match install_from_entry(&list[i]) {
            Some(u) => {
                let ghost before = out@;
                out.push(u);
                proof {
                    assert(install_views(out@) =~= install_views(before).push(u@));
                    assert(install_views(out@) =~= start + installs_of(ev.take(i + 1)));
                }
            },
            None => {},
        }
        i = i + 1;
    }
    proof {
        assert(ev.take(list@.len() as int) =~= ev);
    }
}

/// What the text of `LauncherInstalled.dat` gives when parsed as JSON
/// (`serde_json::from_str::<Value>`): `None` when it is not JSON, `Some(None)` when it
/// has no `InstallationList` array, else one entry per element of that array, each
/// field kept when the element holds it as a string.
pub uninterp spec fn launcher_entries_of(text: Seq<char>) -> Option<Option<Seq<LauncherEntryModel>>>;

pub open spec fn launcher_view(r: Option<Option<Vec<LauncherEntry>>>) -> Option<Option<Seq<LauncherEntryModel>>> {
    match r {
        Some(Some(v)) => Some(Some(v@.map_values(|e: LauncherEntry| e@))),
        Some(None) => Some(None),
        None => None,
    }
}

/// Calls `serde_json::from_str::<Value>` on the launcher data and picks the string
/// fields `AppName`, `InstallLocation` and `AppVersion` of each element of its
/// `InstallationList` array. Claims the result is `launcher_entries_of` of the text.
#[verifier::external_body]
fn parse_launcher_json(text: &str) -> (r: Option<Option<Vec<LauncherEntry>>>)
    ensures
        launcher_view(r) == launcher_entries_of(text@),
{
    let json: serde_json::Value = match serde_json::from_str(text) {
        Ok(j) => j,
        Err(_) => return None,
    };
    let list = match json["InstallationList"].as_array() {
        Some(l) => l,
        None => return Some(None),
    };
    Some(Some(list.iter().map(|e| LauncherEntry {
        app_name: e["AppName"].as_str().map(String::from),
        install_location: e["InstallLocation"].as_str().map(String::from),
        app_version: e["AppVersion"].as_str().map(String::from),
    }).collect()))
}

/// The installations that the launcher data describes: none when there is no data,
/// when it is not JSON or when it has no `InstallationList` array.
pub open spec fn launcher_installs(text: Option<Seq<char>>) -> Seq<InstallModel> {
    match text {
        Some(t) => match launcher_entries_of(t) {
            Some(Some(entries)) => installs_of(entries),
            _ => Seq::<InstallModel>::empty(),
        },
        None => Seq::<InstallModel>::empty(),
    }
}

/// Appends to `out` the engine installations listed in the text of
/// `LauncherInstalled.dat` (`None` when the file could not be read), in list order.
pub fn scan_launcher_text(text: Option<&str>, out: &mut Vec<UeInstall>)
    ensures
        install_views(final(out)@) == install_views(old(out)@) + launcher_installs(text_option_str(text)),
{
    proof {
        assert(install_views(old(out)@) + Seq::<InstallModel>::empty() =~= install_views(old(out)@));
    }
    let t = match text {
        Some(t) => t,
        None => {
            return;
        },
    };
    match parse_launcher_json(t) {
        Some(list) => match list {
            Some(l) => parse_installation_list(Some(&l), out),
            None => parse_installation_list(None, out),
        },
        None => {},
    }
}


/// `Ordering` of a precedence.
pub open spec fn ordering_of(p: Precedence) -> Ordering {
    match p {
        Precedence::Before => Ordering::Less,
        Precedence::Same => Ordering::Equal,
        Precedence::After => Ordering::Greater,
    }
}

/// Compares two dotted version strings component by component, numerically: a
/// component that is not a number counts as 0, and so does a missing one. Components of
/// equal value fall back to a lexicographic comparison of their text (a number's text
/// counting as empty), so `5.a` comes before `5.b`.
pub fn version_cmp(a: &str, b: &str) -> (r: Ordering)
    ensures
        r == ordering_of(version_precedence(a@, b@)),
        (r == Ordering::Less) <==> version_precedence(a@, b@) == Precedence::Before,
        (r == Ordering::Equal) <==> version_precedence(a@, b@) == Precedence::Same,
        (r == Ordering::Greater) <==> version_precedence(a@, b@) == Precedence::After,
{
    match compare_versions(a, b) {
        Precedence::Before => Ordering::Less,
        Precedence::Same => Ordering::Equal,
        Precedence::After => Ordering::Greater,
    }
}

/// `x` must come after `y` when sorting by version.
pub open spec fn goes_after(x: InstallModel, y: InstallModel) -> bool {
    version_precedence(x.0, y.0) == Precedence::After
}

/// `x` inserted into `t` after every element that does not go after it.
pub open spec fn insert_sorted(t: Seq<InstallModel>, x: InstallModel) -> Seq<InstallModel>
    decreases t.len(),
{
    if t.len() == 0 {
        seq![x]
    } else if goes_after(t.last(), x) {
        insert_sorted(t.drop_last(), x).push(t.last())
    } else {
        t.push(x)
    }
}

/// The installations stably sorted by ascending version (what `sort_by` with
/// `version_cmp` produces: equal versions keep their order).
pub open spec fn sort_installs(s: Seq<InstallModel>) -> Seq<InstallModel>
    decreases s.len(),
{
    if s.len() == 0 {
        s
    } else {
        insert_sorted(sort_installs(s.drop_last()), s.last())
    }
}

/// Runs of consecutive installations at the same path reduced to their first element
/// (what `dedup_by` on the path produces).
pub open spec fn dedup_paths(s: Seq<InstallModel>, sep: char) -> Seq<InstallModel>
    decreases s.len(),
{
    if s.len() == 0 {
        s
    } else {
        let r = dedup_paths(s.drop_last(), sep);
        if r.len() > 0 && same_path_spec(s.last().1, r.last().1, sep) {
            r
        } else {
            r.push(s.last())
        }
    }
}

proof fn lemma_insert_at(t: Seq<InstallModel>, x: InstallModel, j: int)
    requires
        0 <= j <= t.len(),
        forall|k: int| j <= k < t.len() ==> goes_after(#[trigger] t[k], x),
        j == 0 || !goes_after(t[j - 1], x),
    ensures
        insert_sorted(t, x) == t.take(j).push(x) + t.skip(j),
    decreases t.len(),
{
    if t.len() == 0 {
        assert(t.take(j).push(x) + t.skip(j) =~= seq![x]);
    } else if j == t.len() {
        assert(t.take(j) =~= t);
        assert(t.take(j).push(x) + t.skip(j) =~= t.push(x));
    } else {
        assert(goes_after(t[t.len() - 1], x));
        let d = t.drop_last();
        assert forall|k: int| j <= k < d.len() implies goes_after(#[trigger] d[k], x) by {
            assert(d[k] == t[k]);
        }
        lemma_insert_at(d, x, j);
        assert(d.take(j) =~= t.take(j));
        assert((d.take(j).push(x) + d.skip(j)).push(t.last()) =~= t.take(j).push(x) + t.skip(j));
    }
}

/// Where `x` goes in the sorted `t`: after the last element that does not go after it.
fn insertion_point(t: &Vec<UeInstall>, x: &UeInstall) -> (j: usize)
    ensures
        j <= t@.len(),
        insert_sorted(install_views(t@), x@) == install_views(t@).take(j as int).push(x@) + install_views(
            t@,
        ).skip(j as int),
{
    let ghost tv = install_views(t@);
    let mut j: usize = t.len();
    while j > 0 && compare_versions(t[j - 1].version.as_str(), x.version.as_str()) == Precedence::After
        invariant
            j <= t@.len(),
            tv == install_views(t@),
            forall|k: int| j <= k < tv.len() ==> goes_after(#[trigger] tv[k], x@),
        decreases j,
    {
        j = j - 1;
    }
    proof {
        lemma_insert_at(tv, x@, j as int);
    }
    j
}

/// Installations sorted stably by ascending version.
fn sort_by_version(installs: &Vec<UeInstall>) -> (r: Vec<UeInstall>)
    ensures
        install_views(r@) == sort_installs(install_views(installs@)),
{
    let ghost sv = install_views(installs@);
    let mut sorted: Vec<UeInstall> = Vec::new();
    let mut i: usize = 0;
    proof {
        assert(sv.take(0) =~= Seq::<InstallModel>::empty());
        assert(install_views(sorted@) =~= Seq::<InstallModel>::empty());
    }
    while i < installs.len()
        invariant
            i <= installs@.len(),
            sv == install_views(installs@),
            install_views(sorted@) == sort_installs(sv.take(i as int)),
        decreases installs@.len() - i,
    {
        let x = installs[i].clone();
        let j = insertion_point(&sorted, &x);
        let ghost before = install_views(sorted@);
        sorted.insert(j, x);
        proof {
            assert(sv.take(i + 1).drop_last() =~= sv.take(i as int));
            assert(sv.take(i + 1).last() == x@);
            assert(install_views(sorted@) =~= before.take(j as int).push(x@) + before.skip(j as int));
        }
        i = i + 1;
    }
    proof {
        assert(sv.take(installs@.len() as int) =~= sv);
    }
    sorted
}

/// Consecutive installations at the same path reduced to the first of each run.
fn dedup_by_path(installs: &Vec<UeInstall>, sep: char) -> (r: Vec<UeInstall>)
    ensures
        install_views(r@) == dedup_paths(install_views(installs@), sep),
{
    let ghost sv = install_views(installs@);
    let mut out: Vec<UeInstall> = Vec::new();
    let mut i: usize = 0;
    proof {
        assert(sv.take(0) =~= Seq::<InstallModel>::empty());
        assert(install_views(out@) =~= Seq::<InstallModel>::empty());
    }
    while i < installs.len()
        invariant
            i <= installs@.len(),
            sv == install_views(installs@),
            install_views(out@) == dedup_paths(sv.take(i as int), sep),
        decreases installs@.len() - i,
    {
        proof {
            assert(sv.take(i + 1).drop_last() =~= sv.take(i as int));
            assert(sv.take(i + 1).last() == installs@[i as int]@);
        }
        let n = out.len();
        let repeated = n > 0 && same_path(installs[i].path.as_str(), out[n - 1].path.as_str(), sep);
        proof {
            if n > 0 {
                assert(install_views(out@).last() == out@[n - 1]@);
            }
        }
        if !repeated {
            let ghost before = install_views(out@);
            out.push(installs[i].clone());
            proof {
                assert(install_views(out@) =~= before.push(installs@[i as int]@));
            }
        }
        i = i + 1;
    }
    proof {
        assert(sv.take(installs@.len() as int) =~= sv);
    }
    out
}

/// Orders scanned installations by ascending version (stable), then drops an
/// installation whose path equals that of the one kept just before it, paths compared
/// with `sep` as the platform's main separator.
pub fn order_engines(scanned: Vec<UeInstall>, sep: char) -> (r: Vec<UeInstall>)
    ensures
        install_views(r@) == dedup_paths(sort_installs(install_views(scanned@)), sep),
{
    let sorted = sort_by_version(&scanned);
    dedup_by_path(&sorted, sep)
}

/// Orders scanned installations by ascending version (stable), then drops an
/// installation whose path equals that of the one kept just before it, as `Path`'s
/// `==` compares paths on this platform: with `/` as separator on Unix, with `/` and
/// `\` on Windows.
pub fn find_installed_engines(scanned: Vec<UeInstall>) -> (r: Vec<UeInstall>)
    ensures
        install_views(r@) == dedup_paths(sort_installs(install_views(scanned@)), '/') || install_views(r@)
            == dedup_paths(sort_installs(install_views(scanned@)), '\\'),
{
    let sep = main_separator();
    order_engines(scanned, sep)
}


/// No element goes after a later one: ascending by version.
pub open spec fn ascending(t: Seq<InstallModel>) -> bool {
    forall|i: int, j: int| 0 <= i < j < t.len() ==> !goes_after(#[trigger] t[i], #[trigger] t[j])
}

proof fn lemma_not_after_trans(a: InstallModel, b: InstallModel, c: InstallModel)
    requires
        !goes_after(a, b),
        !goes_after(b, c),
    ensures
        !goes_after(a, c),
{
    lemma_version_order_laws(a.0, b.0, c.0);
}

proof fn lemma_after_flips(a: InstallModel, b: InstallModel)
    requires
        goes_after(a, b),
    ensures
        !goes_after(b, a),
{
    lemma_version_order_laws(a.0, b.0, b.0);
}

proof fn lemma_insert_contents(t: Seq<InstallModel>, x: InstallModel)
    ensures
        insert_sorted(t, x).to_multiset() == t.to_multiset().insert(x),
    decreases t.len(),
{
    broadcast use vstd::seq_lib::group_to_multiset_ensures;
    if t.len() == 0 {
        assert(seq![x] =~= Seq::<InstallModel>::empty().push(x));
    } else {
        assert(t =~= t.drop_last().push(t.last()));
        if goes_after(t.last(), x) {
            lemma_insert_contents(t.drop_last(), x);
            assert(insert_sorted(t, x).to_multiset() =~= t.to_multiset().insert(x));
        }
    }
}

proof fn lemma_sort_contents(s: Seq<InstallModel>)
    ensures
        sort_installs(s).to_multiset() == s.to_multiset(),
    decreases s.len(),
{
    broadcast use vstd::seq_lib::group_to_multiset_ensures;
    if s.len() > 0 {
        lemma_sort_contents(s.drop_last());
        lemma_insert_contents(sort_installs(s.drop_last()), s.last());
        assert(s =~= s.drop_last().push(s.last()));
    }
}

proof fn lemma_insert_ascending(t: Seq<InstallModel>, x: InstallModel)
    requires
        ascending(t),
    ensures
        ascending(insert_sorted(t, x)),
    decreases t.len(),
{
    broadcast use vstd::seq_lib::group_to_multiset_ensures;
    let r = insert_sorted(t, x);
    if t.len() == 0 {
    } else if goes_after(t.last(), x) {
        let d = t.drop_last();
        assert(ascending(d)) by {
            assert forall|i: int, j: int| 0 <= i < j < d.len() implies !goes_after(#[trigger] d[i], #[trigger] d[j]) by {
                assert(d[i] == t[i] && d[j] == t[j]);
            }
        }
        lemma_insert_ascending(d, x);
        let m = insert_sorted(d, x);
        lemma_insert_contents(d, x);
        assert forall|i: int| 0 <= i < m.len() implies !goes_after(#[trigger] m[i], t.last()) by {
            assert(m.to_multiset().count(m[i]) > 0);
            if m[i] == x {
                lemma_after_flips(t.last(), x);
            } else {
                assert(d.to_multiset().count(m[i]) > 0);
                assert(d.contains(m[i]));
                let k = choose|k: int| 0 <= k < d.len() && d[k] == m[i];
                assert(t[k] == m[i]);
                assert(!goes_after(t[k], t[t.len() - 1]));
            }
        }
        assert forall|i: int, j: int| 0 <= i < j < r.len() implies !goes_after(#[trigger] r[i], #[trigger] r[j]) by {
            if j == r.len() - 1 {
                assert(r[i] == m[i]);
            } else {
                assert(r[i] == m[i] && r[j] == m[j]);
            }
        }
    } else {
        assert forall|i: int, j: int| 0 <= i < j < r.len() implies !goes_after(#[trigger] r[i], #[trigger] r[j]) by {
            if j == r.len() - 1 {
                if i < t.len() - 1 {
                    lemma_not_after_trans(t[i], t[t.len() - 1], x);
                }
            } else {
                assert(r[i] == t[i] && r[j] == t[j]);
            }
        }
    }
}

proof fn lemma_sort_ascending(s: Seq<InstallModel>)
    ensures
        ascending(sort_installs(s)),
    decreases s.len(),
{
    if s.len() > 0 {
        lemma_sort_ascending(s.drop_last());
        lemma_insert_ascending(sort_installs(s.drop_last()), s.last());
    }
}

proof fn lemma_dedup_subset(s: Seq<InstallModel>, sep: char)
    ensures
        forall|i: int| 0 <= i < dedup_paths(s, sep).len() ==> s.contains(#[trigger] dedup_paths(s, sep)[i]),
    decreases s.len(),
{
    if s.len() > 0 {
        let d = s.drop_last();
        lemma_dedup_subset(d, sep);
        let r = dedup_paths(d, sep);
        let out = dedup_paths(s, sep);
        assert forall|i: int| 0 <= i < out.len() implies s.contains(#[trigger] out[i]) by {
            if i < r.len() {
                assert(d.contains(r[i]));
                let k = choose|k: int| 0 <= k < d.len() && d[k] == r[i];
                assert(s[k] == r[i]);
            } else {
                assert(s[s.len() - 1] == out[i]);
            }
        }
    }
}

proof fn lemma_dedup_covers(s: Seq<InstallModel>, sep: char)
    ensures
        forall|i: int| 0 <= i < s.len() ==> exists|j: int| 0 <= j < dedup_paths(s, sep).len()
            && same_path_spec((#[trigger] s[i]).1, #[trigger] dedup_paths(s, sep)[j].1, sep),
    decreases s.len(),
{
    if s.len() > 0 {
        let d = s.drop_last();
        lemma_dedup_covers(d, sep);
        let r = dedup_paths(d, sep);
        let out = dedup_paths(s, sep);
        assert forall|i: int| 0 <= i < s.len() implies exists|j: int| 0 <= j < out.len()
            && same_path_spec((#[trigger] s[i]).1, #[trigger] out[j].1, sep) by {
            if i < s.len() - 1 {
                assert(d[i] == s[i]);
                let j = choose|j: int| 0 <= j < r.len() && same_path_spec((#[trigger] d[i]).1, #[trigger] r[j].1, sep);
                assert(out[j] == r[j]);
            } else if out.len() == r.len() {
                assert(out[r.len() - 1] == r.last());
                assert(s[i] == s.last());
                assert(same_path_spec(s[i].1, out[r.len() - 1].1, sep));
            } else {
                assert(out[out.len() - 1] == s.last());
                assert(s[i] == s.last());
                assert(same_path_spec(s[i].1, out[out.len() - 1].1, sep));
            }
        }
    }
}

proof fn lemma_dedup_neighbours(s: Seq<InstallModel>, sep: char)
    ensures
        forall|i: int| 0 <= i < dedup_paths(s, sep).len() - 1 ==> !same_path_spec(
            #[trigger] dedup_paths(s, sep)[i].1,
            dedup_paths(s, sep)[i + 1].1,
            sep,
        ),
    decreases s.len(),
{
    if s.len() > 0 {
        let d = s.drop_last();
        lemma_dedup_neighbours(d, sep);
        let r = dedup_paths(d, sep);
        let out = dedup_paths(s, sep);
        assert forall|i: int| 0 <= i < out.len() - 1 implies !same_path_spec(#[trigger] out[i].1, out[i + 1].1, sep) by {
            if i + 1 < r.len() {
                assert(out[i] == r[i] && out[i + 1] == r[i + 1]);
            } else {
                assert(out[i] == r.last());
            }
        }
    }
}

proof fn lemma_dedup_ascending(s: Seq<InstallModel>, sep: char)
    requires
        ascending(s),
    ensures
        ascending(dedup_paths(s, sep)),
    decreases s.len(),
{
    if s.len() > 0 {
        let d = s.drop_last();
        assert(ascending(d)) by {
            assert forall|i: int, j: int| 0 <= i < j < d.len() implies !goes_after(#[trigger] d[i], #[trigger] d[j]) by {
                assert(d[i] == s[i] && d[j] == s[j]);
            }
        }
        lemma_dedup_ascending(d, sep);
        lemma_dedup_subset(d, sep);
        let r = dedup_paths(d, sep);
        let out = dedup_paths(s, sep);
        assert forall|i: int, j: int| 0 <= i < j < out.len() implies !goes_after(#[trigger] out[i], #[trigger] out[j]) by {
            if j < r.len() {
                assert(out[i] == r[i] && out[j] == r[j]);
            } else {
                assert(out[i] == r[i]);
                assert(d.contains(r[i]));
                let k = choose|k: int| 0 <= k < d.len() && d[k] == r[i];
                assert(s[k] == r[i]);
                assert(out[j] == s[s.len() - 1]);
            }
        }
    }
}

/// What `order_engines` returns (and so `find_installed_engines`, for this platform's
/// separator) is ascending by version, holds no two neighbours at the same path,
/// consists of scanned installations only, and keeps an installation at every scanned
/// path.
pub proof fn lemma_installed_engines_laws(scanned: Seq<InstallModel>, sep: char)
    ensures
        ascending(dedup_paths(sort_installs(scanned), sep)),
        forall|i: int| 0 <= i < dedup_paths(sort_installs(scanned), sep).len() - 1 ==> !same_path_spec(
            #[trigger] dedup_paths(sort_installs(scanned), sep)[i].1,
            dedup_paths(sort_installs(scanned), sep)[i + 1].1,
            sep,
        ),
        forall|i: int| 0 <= i < dedup_paths(sort_installs(scanned), sep).len() ==> scanned.contains(
            #[trigger] dedup_paths(sort_installs(scanned), sep)[i],
        ),
        forall|i: int| 0 <= i < scanned.len() ==> exists|j: int| 0 <= j < dedup_paths(sort_installs(scanned), sep).len()
            && same_path_spec((#[trigger] scanned[i]).1, #[trigger] dedup_paths(sort_installs(scanned), sep)[j].1, sep),
{
    broadcast use vstd::seq_lib::group_to_multiset_ensures;
    let sorted = sort_installs(scanned);
    lemma_sort_ascending(scanned);
    lemma_sort_contents(scanned);
    lemma_dedup_subset(sorted, sep);
    lemma_dedup_covers(sorted, sep);
    lemma_dedup_neighbours(sorted, sep);
    lemma_dedup_ascending(sorted, sep);
    let out = dedup_paths(sorted, sep);
    assert forall|i: int| 0 <= i < out.len() implies scanned.contains(#[trigger] out[i]) by {
        assert(sorted.contains(out[i]));
        assert(sorted.to_multiset().count(out[i]) > 0);
    }
    assert forall|i: int| 0 <= i < scanned.len() implies exists|j: int| 0 <= j < out.len()
        && same_path_spec((#[trigger] scanned[i]).1, #[trigger] out[j].1, sep) by {
        assert(scanned.to_multiset().count(scanned[i]) > 0);
        assert(sorted.contains(scanned[i]));
        let k = choose|k: int| 0 <= k < sorted.len() && sorted[k] == scanned[i];
        let j = choose|j: int| 0 <= j < out.len() && same_path_spec(sorted[k].1, #[trigger] out[j].1, sep);
    }
}

} // verus!
