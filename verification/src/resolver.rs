//! Dependency resolution: directory naming, version-conflict checks, and the
//! install/resolve state machine that drives recursive plugin installation.

use vstd::prelude::*;
use crate::error::{ErrorModel, UepmError, unit_outcome};
use crate::lockfile::{LockFile, LockedModel, LockedPlugin};
use crate::manifest::ProjectManifest;
use crate::strmap::StrMap;
use crate::text::{find_after_last, last_piece, lemma_last_piece_has_no_sep, lemma_last_piece_is_suffix, str_eq};

verus! {

/// Directory under `UEPMPlugins/` that holds `package`: the part after the last `/`
/// (`@acme/cool-plugin` gives `cool-plugin`), or the whole name when it has no `/`.
pub fn plugin_dir_name(package: &str) -> (dir: &str)
    ensures
        dir@ == last_piece(package@, '/'),
        !dir@.contains('/'),
{
    let k = find_after_last(package, '/');
    proof {
        lemma_last_piece_is_suffix(package@, '/');
        lemma_last_piece_has_no_sep(package@, '/');
    }
    package.substring_char(k, package.unicode_len())
}


#[verifier::external_type_specification]
#[verifier::external_body]
pub struct ExVersionReq(semver::VersionReq);

#[verifier::external_type_specification]
#[verifier::external_body]
pub struct ExVersion(semver::Version);

/// What `semver::VersionReq::parse` makes of a text: `Ok` when it parses, else the
/// error's message.
pub uninterp spec fn semver_range_parse(text: Seq<char>) -> Result<(), Seq<char>>;

/// What `semver::Version::parse` makes of a text: `Ok` when it parses, else the
/// error's message.
pub uninterp spec fn semver_version_parse(text: Seq<char>) -> Result<(), Seq<char>>;

/// What `semver::VersionReq::matches` answers for the range and the version parsed from
/// these texts.
pub uninterp spec fn semver_matches(range: Seq<char>, version: Seq<char>) -> bool;

/// A range together with the text it was parsed from; made only by `parse_range`.
struct ParsedRange {
    text: String,
    req: semver::VersionReq,
}

/// A version together with the text it was parsed from; made only by `parse_version`.
struct ParsedVersion {
    text: String,
    version: semver::Version,
}

/// Calls `semver::VersionReq::parse`. Claims that the outcome is `semver_range_parse`
/// of the text, the error rendered by its `Display`, and that the parsed range keeps
/// the text it came from.
#[verifier::external_body]
fn parse_range(text: &str) -> (r: Result<ParsedRange, String>)
    ensures
        match r {
            Ok(p) => semver_range_parse(text@) == Ok::<(), Seq<char>>(()) && p.text@ == text@,
            Err(m) => semver_range_parse(text@) == Err::<(), Seq<char>>(m@),
        },
{
    match semver::VersionReq::parse(text) {
        Ok(req) => Ok(ParsedRange { text: text.to_string(), req }),
        Err(e) => Err(e.to_string()),
    }
}

/// Calls `semver::Version::parse`. Claims that the outcome is `semver_version_parse`
/// of the text, the error rendered by its `Display`, and that the parsed version keeps
/// the text it came from.
#[verifier::external_body]
fn parse_version(text: &str) -> (r: Result<ParsedVersion, String>)
    ensures
        match r {
            Ok(p) => semver_version_parse(text@) == Ok::<(), Seq<char>>(()) && p.text@ == text@,
            Err(m) => semver_version_parse(text@) == Err::<(), Seq<char>>(m@),
        },
{
    match semver::Version::parse(text) {
        Ok(version) => Ok(ParsedVersion { text: text.to_string(), version }),
        Err(e) => Err(e.to_string()),
    }
}

/// Calls `semver::VersionReq::matches`. Claims that the answer is `semver_matches` of
/// the two texts the values were parsed from (both types are built only by the parse
/// wrappers above, which record those texts).
#[verifier::external_body]
fn range_matches(range: &ParsedRange, version: &ParsedVersion) -> (b: bool)
    ensures
        b == semver_matches(range.text@, version.text@),
{
    range.req.matches(&version.version)
}

/// Message of a version conflict.
pub open spec fn conflict_message(resolved: Seq<char>, required: Seq<char>) -> Seq<char> {
    "installed version "@ + resolved + " does not satisfy required range "@ + required
}

/// Whether a package about to be installed with `meta` must be downloaded: not when
/// the lock file already holds it at that version with that checksum and its plugin
/// directory is in place (`installed`).
pub open spec fn download_needed_spec(
    lock: Map<Seq<char>, LockedModel>,
    package: Seq<char>,
    meta: MetaModel,
    installed: bool,
) -> bool {
    !(installed && lock.dom().contains(package) && lock[package].resolved == meta.version
        && lock[package].sha512 == meta.integrity)
}

/// Decides whether the install of `package` at `metadata` needs a download, given the
/// lock file and whether its plugin directory is present.
pub fn download_needed(lock: &LockFile, package: &str, metadata: &PackageMetadata, installed: bool) -> (r: bool)
    ensures
        r == download_needed_spec(lock.plugins@, package@, metadata@, installed),
{
    if !installed {
        return true;
    }
    match lock.plugins.get(package) {
        None => true,
        Some(locked) => !(str_eq(locked.resolved.as_str(), metadata.version.as_str()) && str_eq(
            locked.sha512.as_str(),
            metadata.integrity.as_str(),
        )),
    }
}

/// Each package of a chain of requirements followed by ` -> `.
pub open spec fn chain_text(chain: Seq<Seq<char>>) -> Seq<char>
    decreases chain.len(),
{
    if chain.len() == 0 {
        Seq::<char>::empty()
    } else {
        chain_text(chain.drop_last()) + chain.last() + " -> "@
    }
}

/// A conflict message followed by the chain of requirements that led to `package` and a
/// suggestion to pin its version in the project manifest.
pub open spec fn conflict_explanation(message: Seq<char>, chain: Seq<Seq<char>>, package: Seq<char>) -> Seq<char> {
    message + "; required through "@ + chain_text(chain) + package + "; pin a version of "@ + package
        + " in Config/UEPM.ini to settle it"@
}

/// A version conflict explained by its chain of requirements; other errors unchanged.
pub open spec fn chained_conflict(e: ErrorModel, chain: Seq<Seq<char>>) -> ErrorModel {
    match e {
        ErrorModel::VersionConflict { package, message } => ErrorModel::VersionConflict {
            package,
            message: conflict_explanation(message, chain, package),
        },
        other => other,
    }
}

/// Outcome of a conflict check, given what semver made of the range and the version
/// and whether the version satisfies the range.
pub open spec fn conflict_outcome(
    package: Seq<char>,
    resolved: Seq<char>,
    required: Seq<char>,
    range_parse: Result<(), Seq<char>>,
    version_parse: Result<(), Seq<char>>,
    satisfied: bool,
) -> Result<(), ErrorModel> {
    match range_parse {
        Err(m) => Err(ErrorModel::InvalidSemver { range: required, message: m }),
        Ok(_) => match version_parse {
            Err(m) => Err(ErrorModel::InvalidSemver { range: resolved, message: m }),
            Ok(_) => if satisfied {
                Ok(())
            } else {
                Err(
                    ErrorModel::VersionConflict {
                        package,
                        message: conflict_message(resolved, required),
                    },
                )
            },
        },
    }
}

/// Laws of a conflict check: it passes exactly when both texts parse and semver says
/// the version satisfies the range; a range that does not parse is reported first, with
/// the range; then a version that does not parse, with the version; and a version
/// outside a valid range is a version conflict for the package, whatever the range's
/// form (caret, tilde, comparison or exact).
pub proof fn lemma_conflict_check_laws(
    package: Seq<char>,
    resolved: Seq<char>,
    required: Seq<char>,
    range_parse: Result<(), Seq<char>>,
    version_parse: Result<(), Seq<char>>,
    satisfied: bool,
)
    ensures
        conflict_outcome(package, resolved, required, range_parse, version_parse, satisfied) is Ok
            <==> (range_parse is Ok && version_parse is Ok && satisfied),
        range_parse is Err ==> conflict_outcome(package, resolved, required, range_parse, version_parse, satisfied)
            is Err && conflict_outcome(package, resolved, required, range_parse, version_parse, satisfied)->Err_0
            == (ErrorModel::InvalidSemver { range: required, message: range_parse->Err_0 }),
        range_parse is Ok && version_parse is Err ==> conflict_outcome(
            package,
            resolved,
            required,
            range_parse,
            version_parse,
            satisfied,
        ) is Err && conflict_outcome(package, resolved, required, range_parse, version_parse, satisfied)->Err_0
            == (ErrorModel::InvalidSemver { range: resolved, message: version_parse->Err_0 }),
        range_parse is Ok && version_parse is Ok && !satisfied ==> conflict_outcome(
            package,
            resolved,
            required,
            range_parse,
            version_parse,
            satisfied,
        ) is Err && conflict_outcome(package, resolved, required, range_parse, version_parse, satisfied)->Err_0
            is VersionConflict && conflict_outcome(
            package,
            resolved,
            required,
            range_parse,
            version_parse,
            satisfied,
        )->Err_0->VersionConflict_package == package,
{
}

pub open spec fn text_outcome(r: Result<(), String>) -> Result<(), Seq<char>> {
    match r {
        Ok(()) => Ok(()),
        Err(m) => Err(m@),
    }
}

/// Decides a conflict check from semver's answers: the range's parse outcome, the
/// version's, and whether the version satisfies the range.
pub fn conflict_verdict(
    package: &str,
    resolved_version: &str,
    required_range: &str,
    range_parse: Result<(), String>,
    version_parse: Result<(), String>,
    satisfied: bool,
) -> (r: Result<(), UepmError>)
    ensures
        unit_outcome(r) == conflict_outcome(
            package@,
            resolved_version@,
            required_range@,
            text_outcome(range_parse),
            text_outcome(version_parse),
            satisfied,
        ),
{
    match range_parse {
        Err(m) => Err(
            UepmError::InvalidSemver { range: String::from_str(required_range), message: m },
        ),
        Ok(()) => match version_parse {
            Err(m) => Err(
                UepmError::InvalidSemver { range: String::from_str(resolved_version), message: m },
            ),
            Ok(()) => if satisfied {
                Ok(())
            } else {
                let mut message = String::from_str("installed version ");
                message.append(resolved_version);
                message.append(" does not satisfy required range ");
                message.append(required_range);
                Err(UepmError::VersionConflict { package: String::from_str(package), message })
            },
        },
    }
}

/// Checks that an already resolved version satisfies a newly required range.
/// Either text failing to parse as semver is an `InvalidSemver` error (the range is
/// checked first); a version outside the range is a `VersionConflict`.
pub fn check_conflict(package: &str, resolved_version: &str, required_range: &str) -> (r: Result<
    (),
    UepmError,
>)
    ensures
        unit_outcome(r) == conflict_outcome(
            package@,
            resolved_version@,
            required_range@,
            semver_range_parse(required_range@),
            semver_version_parse(resolved_version@),
            semver_matches(required_range@, resolved_version@),
        ),
        r is Ok <==> (semver_range_parse(required_range@) is Ok && semver_version_parse(resolved_version@) is Ok
            && semver_matches(required_range@, resolved_version@)),
{
    proof {
        lemma_conflict_check_laws(
            package@,
            resolved_version@,
            required_range@,
            semver_range_parse(required_range@),
            semver_version_parse(resolved_version@),
            semver_matches(required_range@, resolved_version@),
        );
    }
    match parse_range(required_range) {
        Err(m) => conflict_verdict(package, resolved_version, required_range, Err(m), Ok(()), false),
        Ok(range) => match parse_version(resolved_version) {
            Err(m) => conflict_verdict(
                package,
                resolved_version,
                required_range,
                Ok(()),
                Err(m),
                false,
            ),
            Ok(version) => {
                let satisfied = range_matches(&range, &version);
                conflict_verdict(package, resolved_version, required_range, Ok(()), Ok(()), satisfied)
            },
        },
    }
}


// ---------------------------------------------------------------------------------------
// Recursive install and resolution, as a state machine driven by the caller.
//
// Installing a package may need a registry lookup, a download and a read of the
// installed plugin's own manifest; each dependency found there is installed the same
// way, depth first, and recorded in the lock file under its parent. The resolver
// decides; the caller performs each request and replies with what happened.
// ---------------------------------------------------------------------------------------

/// A version of a package as the registry describes it.
#[derive(Debug)]
pub struct PackageMetadata {
    pub version: String,
    pub tarball: String,
    pub integrity: String,
}

pub struct MetaModel {
    pub version: Seq<char>,
    pub tarball: Seq<char>,
    pub integrity: Seq<char>,
}

impl View for PackageMetadata {
    type V = MetaModel;

    open spec fn view(&self) -> MetaModel {
        MetaModel { version: self.version@, tarball: self.tarball@, integrity: self.integrity@ }
    }
}

impl Clone for PackageMetadata {
    fn clone(&self) -> (r: Self)
        ensures
            r@ == self@,
    {
        PackageMetadata {
            version: self.version.clone(),
            tarball: self.tarball.clone(),
            integrity: self.integrity.clone(),
        }
    }
}

/// A package whose dependencies are being installed, one after the other.
pub struct FrameModel {
    pub package: Seq<char>,
    /// The dependencies (name, range) in the order they are installed.
    pub deps: Seq<(Seq<char>, Seq<char>)>,
    /// The dependency being installed now.
    pub next: nat,
}

/// What the resolver waits for.
pub enum PendingModel {
    Metadata { package: Seq<char>, range: Seq<char> },
    Install { package: Seq<char>, metadata: MetaModel },
    Manifest { package: Seq<char> },
    Finished { outcome: Result<(), ErrorModel> },
}

/// What the resolver asks its caller to do.
pub enum RequestModel {
    FetchMetadata { package: Seq<char>, range: Seq<char> },
    Install { package: Seq<char>, metadata: MetaModel },
    ReadPluginManifest { package: Seq<char> },
    Done(Result<(), ErrorModel>),
}

/// What the caller reports back.
pub enum ReplyModel {
    Metadata(Result<MetaModel, ErrorModel>),
    Installed(Result<(), ErrorModel>),
    PluginManifest(Option<Seq<(Seq<char>, Seq<char>)>>),
}

pub struct StateModel {
    pub lock: Map<Seq<char>, LockedModel>,
    pub resolved: Map<Seq<char>, Seq<char>>,
    pub frames: Seq<FrameModel>,
    pub pending: PendingModel,
}

pub open spec fn request_for(p: PendingModel) -> RequestModel {
    match p {
        PendingModel::Metadata { package, range } => RequestModel::FetchMetadata { package, range },
        PendingModel::Install { package, metadata } => RequestModel::Install { package, metadata },
        PendingModel::Manifest { package } => RequestModel::ReadPluginManifest { package },
        PendingModel::Finished { outcome } => RequestModel::Done(outcome),
    }
}

/// Waits for `pending` and asks for it.
pub open spec fn settle(st: StateModel, pending: PendingModel) -> (StateModel, RequestModel) {
    (StateModel { pending, ..st }, request_for(pending))
}

/// Dependencies still to install across the stack, plus one per frame.
pub open spec fn remaining(frames: Seq<FrameModel>) -> nat
    decreases frames.len(),
{
    if frames.len() == 0 {
        0
    } else {
        let f = frames.last();
        remaining(frames.drop_last()) + 1 + if f.next < f.deps.len() {
            (f.deps.len() - f.next) as nat
        } else {
            0
        }
    }
}

pub open spec fn locked_meta(l: LockedModel) -> MetaModel {
    MetaModel { version: l.resolved, tarball: l.tarball, integrity: l.sha512 }
}

/// Records `dep`, at the version it resolved to, among the locked dependencies of
/// `parent`.
pub open spec fn record_dependency(
    lock: Map<Seq<char>, LockedModel>,
    resolved: Map<Seq<char>, Seq<char>>,
    parent: Seq<char>,
    dep: Seq<char>,
) -> Map<Seq<char>, LockedModel> {
    if lock.dom().contains(parent) && resolved.dom().contains(dep) {
        lock.insert(
            parent,
            LockedModel { dependencies: lock[parent].dependencies.insert(dep, resolved[dep]), ..lock[parent] },
        )
    } else {
        lock
    }
}

/// Starts installing `package` for `range`: a package already resolved in this run
/// only has its version checked against the range; a locked one installs its locked
/// version; any other is looked up in the registry first.
pub open spec fn begin_call(st: StateModel, package: Seq<char>, range: Seq<char>) -> (
    StateModel,
    RequestModel,
)
    decreases remaining(st.frames), 1int,
{
    if st.resolved.dom().contains(package) {
        let v = st.resolved[package];
        match conflict_outcome(
            package,
            v,
            range,
            semver_range_parse(range),
            semver_version_parse(v),
            semver_matches(range, v),
        ) {
            Ok(()) => return_ok(st),
            Err(e) => settle(st, PendingModel::Finished { outcome: Err(e) }),
        }
    } else if st.lock.dom().contains(package) {
        settle(st, PendingModel::Install { package, metadata: locked_meta(st.lock[package]) })
    } else {
        settle(st, PendingModel::Metadata { package, range })
    }
}

/// The package being installed finished successfully: its parent records it as a
/// dependency and goes on with its next one, or finishes in turn.
pub open spec fn return_ok(st: StateModel) -> (StateModel, RequestModel)
    decreases remaining(st.frames), 0int,
{
    if st.frames.len() == 0 {
        settle(st, PendingModel::Finished { outcome: Ok(()) })
    } else {
        let f = st.frames.last();
        let lock = if f.next < f.deps.len() {
            record_dependency(st.lock, st.resolved, f.package, f.deps[f.next as int].0)
        } else {
            st.lock
        };
        if f.next + 1 < f.deps.len() {
            let f2 = FrameModel { next: f.next + 1, ..f };
            let st2 = StateModel { lock, frames: st.frames.drop_last().push(f2), ..st };
            proof {
                assert(st2.frames.drop_last() =~= st.frames.drop_last());
            }
            begin_call(st2, f.deps[f.next + 1int].0, f.deps[f.next + 1int].1)
        } else {
            return_ok(StateModel { lock, frames: st.frames.drop_last(), ..st })
        }
    }
}

/// The request repeated, for a reply that answers something else.
pub open spec fn repeat(st: StateModel) -> (StateModel, RequestModel) {
    (st, request_for(st.pending))
}

/// The resolver's response to a reply.
pub open spec fn step_spec(st: StateModel, reply: ReplyModel) -> (StateModel, RequestModel) {
    match st.pending {
        PendingModel::Metadata { package, range } => match reply {
            ReplyModel::Metadata(Err(e)) => settle(st, PendingModel::Finished { outcome: Err(e) }),
            ReplyModel::Metadata(Ok(m)) => settle(st, PendingModel::Install { package, metadata: m }),
            _ => repeat(st),
        },
        PendingModel::Install { package, metadata } => match reply {
            ReplyModel::Installed(Err(e)) => settle(st, PendingModel::Finished { outcome: Err(e) }),
            ReplyModel::Installed(Ok(())) => {
                let locked = LockedModel {
                    resolved: metadata.version,
                    tarball: metadata.tarball,
                    sha512: metadata.integrity,
                    dependencies: Map::empty(),
                };
                let st2 = StateModel {
                    resolved: st.resolved.insert(package, metadata.version),
                    lock: st.lock.insert(package, locked),
                    ..st
                };
                settle(st2, PendingModel::Manifest { package })
            },
            _ => repeat(st),
        },
        PendingModel::Manifest { package } => match reply {
            ReplyModel::PluginManifest(None) => return_ok(st),
            ReplyModel::PluginManifest(Some(deps)) => if deps.len() == 0 {
                return_ok(st)
            } else {
                let st2 = StateModel {
                    frames: st.frames.push(FrameModel { package, deps, next: 0 }),
                    ..st
                };
                begin_call(st2, deps[0].0, deps[0].1)
            },
            _ => repeat(st),
        },
        PendingModel::Finished { .. } => repeat(st),
    }
}


pub open spec fn pairs_view(s: Seq<(String, String)>) -> Seq<(Seq<char>, Seq<char>)> {
    s.map_values(|p: (String, String)| (p.0@, p.1@))
}

fn copy_pairs(v: &Vec<(String, String)>) -> (r: Vec<(String, String)>)
    ensures
        pairs_view(r@) == pairs_view(v@),
{
    let mut r: Vec<(String, String)> = Vec::new();
    let mut i: usize = 0;
    while i < v.len()
        invariant
            i <= v@.len(),
            pairs_view(r@) =~= pairs_view(v@.take(i as int)),
        decreases v@.len() - i,
    {
        let ghost before = r@;
        r.push((v[i].0.clone(), v[i].1.clone()));
        proof {
            assert(v@.take(i + 1) =~= v@.take(i as int).push(v@[i as int]));
            assert(pairs_view(r@) =~= pairs_view(before).push((v@[i as int].0@, v@[i as int].1@)));
        }
        i = i + 1;
    }
    proof {
        assert(v@.take(v@.len() as int) =~= v@);
    }
    r
}

struct Frame {
    package: String,
    deps: Vec<(String, String)>,
    next: usize,
}

impl View for Frame {
    type V = FrameModel;

    closed spec fn view(&self) -> FrameModel {
        FrameModel { package: self.package@, deps: pairs_view(self.deps@), next: self.next as nat }
    }
}

enum Pending {
    Metadata { package: String, range: String },
    Install { package: String, metadata: PackageMetadata },
    Manifest { package: String },
    Finished { outcome: Result<(), UepmError> },
}

impl View for Pending {
    type V = PendingModel;

    closed spec fn view(&self) -> PendingModel {
        match self {
            Pending::Metadata { package, range } => PendingModel::Metadata {
                package: package@,
                range: range@,
            },
            Pending::Install { package, metadata } => PendingModel::Install {
                package: package@,
                metadata: metadata@,
            },
            Pending::Manifest { package } => PendingModel::Manifest { package: package@ },
            Pending::Finished { outcome } => PendingModel::Finished { outcome: unit_outcome(*outcome) },
        }
    }
}

/// What the resolver asks its caller to do next.
#[derive(Debug)]
pub enum Request {
    /// Look up the newest version of `package` that satisfies `range`.
    FetchMetadata { package: String, range: String },
    /// Download the tarball of this version, check it and unpack it into the plugin
    /// directory of `package`.
    Install { package: String, metadata: PackageMetadata },
    /// Read the manifest of the freshly installed plugin, for its dependencies.
    ReadPluginManifest { package: String },
    /// The run is over, with this outcome.
    Done(Result<(), UepmError>),
}

impl View for Request {
    type V = RequestModel;

    open spec fn view(&self) -> RequestModel {
        match self {
            Request::FetchMetadata { package, range } => RequestModel::FetchMetadata {
                package: package@,
                range: range@,
            },
            Request::Install { package, metadata } => RequestModel::Install {
                package: package@,
                metadata: metadata@,
            },
            Request::ReadPluginManifest { package } => RequestModel::ReadPluginManifest {
                package: package@,
            },
            Request::Done(outcome) => RequestModel::Done(unit_outcome(*outcome)),
        }
    }
}

/// What the caller reports after doing what was asked.
pub enum Reply {
    Metadata(Result<PackageMetadata, UepmError>),
    Installed(Result<(), UepmError>),
    /// The plugin's manifest, or `None` when it could not be read.
    PluginManifest(Option<ProjectManifest>),
}

pub open spec fn metadata_outcome(r: Result<PackageMetadata, UepmError>) -> Result<MetaModel, ErrorModel> {
    match r {
        Ok(m) => Ok(m@),
        Err(e) => Err(e@),
    }
}

impl View for Reply {
    type V = ReplyModel;

    open spec fn view(&self) -> ReplyModel {
        match self {
            Reply::Metadata(r) => ReplyModel::Metadata(metadata_outcome(*r)),
            Reply::Installed(r) => ReplyModel::Installed(unit_outcome(*r)),
            Reply::PluginManifest(None) => ReplyModel::PluginManifest(None),
            Reply::PluginManifest(Some(m)) => ReplyModel::PluginManifest(
                Some(pairs_view(m.plugins.entry_seq())),
            ),
        }
    }
}

enum Next {
    Begin { package: String, range: String },
    ReturnOk,
}

pub enum NextModel {
    Begin { package: Seq<char>, range: Seq<char> },
    ReturnOk,
}

impl View for Next {
    type V = NextModel;

    closed spec fn view(&self) -> NextModel {
        match self {
            Next::Begin { package, range } => NextModel::Begin { package: package@, range: range@ },
            Next::ReturnOk => NextModel::ReturnOk,
        }
    }
}

pub open spec fn run_next(st: StateModel, n: NextModel) -> (StateModel, RequestModel) {
    match n {
        NextModel::Begin { package, range } => begin_call(st, package, range),
        NextModel::ReturnOk => return_ok(st),
    }
}

pub open spec fn next_rank(n: NextModel) -> int {
    match n {
        NextModel::Begin { .. } => 1,
        NextModel::ReturnOk => 0,
    }
}

/// Drives the recursive installation of one package and its dependencies.
pub struct Resolver {
    lock: LockFile,
    resolved: StrMap<String>,
    frames: Vec<Frame>,
    pending: Pending,
}

impl View for Resolver {
    type V = StateModel;

    closed spec fn view(&self) -> StateModel {
        StateModel {
            lock: self.lock.plugins@,
            resolved: self.resolved@,
            frames: self.frames@.map_values(|f: Frame| f@),
            pending: self.pending@,
        }
    }
}

fn request_of(p: &Pending) -> (r: Request)
    ensures
        r@ == request_for(p@),
{
    match p {
        Pending::Metadata { package, range } => Request::FetchMetadata {
            package: package.clone(),
            range: range.clone(),
        },
        Pending::Install { package, metadata } => Request::Install {
            package: package.clone(),
            metadata: metadata.clone(),
        },
        Pending::Manifest { package } => Request::ReadPluginManifest { package: package.clone() },
        Pending::Finished { outcome } => Request::Done(
            match outcome {
                Ok(()) => Ok(()),
                Err(e) => Err(e.clone()),
            },
        ),
    }
}

impl Resolver {
    /// The lock file format version kept by the resolver.
    pub closed spec fn lock_version(&self) -> u64 {
        self.lock.version
    }

    fn settle(&mut self, pending: Pending) -> (r: Request)
        ensures
            (final(self)@, r@) == settle(old(self)@, pending@),
            final(self).lock_version() == old(self).lock_version(),
    {
        let r = request_of(&pending);
        self.pending = pending;
        proof {
            assert(self@.lock == old(self)@.lock);
            assert(self@.resolved == old(self)@.resolved);
            assert(self@.frames == old(self)@.frames);
            assert(self@.pending == pending@);
            assert(self.lock.version == old(self).lock.version);
        }
        r
    }

    fn repeat(&self) -> (r: Request)
        ensures
            r@ == request_for(self@.pending),
    {
        request_of(&self.pending)
    }

    fn record_dependency(&mut self, parent: &String, dep: &String)
        ensures
            final(self)@ == (StateModel {
                lock: record_dependency(old(self)@.lock, old(self)@.resolved, parent@, dep@),
                ..old(self)@
            }),
            final(self).lock_version() == old(self).lock_version(),
    {
        let version = match self.resolved.get(dep.as_str()) {
            Some(v) => v.clone(),
            None => {
                return;
            },
        };
        match self.lock.plugins.take(parent.as_str()) {
            Some(mut locked) => {
                locked.dependencies.insert(dep.clone(), version);
                self.lock.plugins.insert(parent.clone(), locked);
                proof {
                    let want = record_dependency(old(self)@.lock, old(self)@.resolved, parent@, dep@);
                    assert(self.lock.plugins@ =~= want);
                }
            },
            None => {
                proof {
                    assert(self.lock.plugins@ =~= old(self)@.lock);
                }
            },
        }
    }

    fn advance(&mut self, first: Next) -> (r: Request)
        ensures
            (final(self)@, r@) == run_next(old(self)@, first@),
            final(self).lock_version() == old(self).lock_version(),
    {
        let ghost target = run_next(self@, first@);
        let ghost version = self.lock_version();
        let mut next = first;
        loop
            invariant
                run_next(self@, next@) == target,
                target == run_next(old(self)@, first@),
                self.lock_version() == version,
                version == old(self).lock_version(),
            decreases remaining(self@.frames), next_rank(next@),
        {
            match next {
                Next::Begin { package, range } => {
                    let found = match self.resolved.get(package.as_str()) {
                        Some(v) => Some(check_conflict(package.as_str(), v.as_str(), range.as_str())),
                        None => None,
                    };
                    match found {
                        Some(Ok(())) => {
                            next = Next::ReturnOk;
                        },
                        Some(Err(e)) => {
                            return self.settle(Pending::Finished { outcome: Err(e) });
                        },
                        None => {
                            let locked = match self.lock.plugins.get(package.as_str()) {
                                Some(l) => Some(
                                    PackageMetadata {
                                        version: l.resolved.clone(),
                                        tarball: l.tarball.clone(),
                                        integrity: l.sha512.clone(),
                                    },
                                ),
                                None => None,
                            };
                            match locked {
                                Some(metadata) => {
                                    return self.settle(Pending::Install { package, metadata });
                                },
                                None => {
                                    return self.settle(Pending::Metadata { package, range });
                                },
                            }
                        },
                    }
                },
                Next::ReturnOk => {
                    if self.frames.len() == 0 {
                        return self.settle(Pending::Finished { outcome: Ok(()) });
                    }
                    let ghost st = self@;
                    let mut f = self.frames.pop().unwrap();
                    proof {
                        assert(self@.frames =~= st.frames.drop_last());
                        assert(f@ == st.frames.last());
                    }
                    if f.next < f.deps.len() {
                        proof {
                            assert(pairs_view(f.deps@)[f.next as int] == (f.deps@[f.next as int].0@, f.deps@[f.next as int].1@));
                        }
                        self.record_dependency(&f.package, &f.deps[f.next].0);
                    }
                    if f.next < f.deps.len() && f.next + 1 < f.deps.len() {
                        f.next = f.next + 1;
                        let package = f.deps[f.next].0.clone();
                        let range = f.deps[f.next].1.clone();
                        proof {
                            assert(pairs_view(f.deps@)[f.next as int] == (f.deps@[f.next as int].0@, f.deps@[f.next as int].1@));
                        }
                        let ghost popped = self@.frames;
                        self.frames.push(f);
                        proof {
                            assert(self@.frames =~= popped.push(f@));
                            assert(self@.frames.drop_last() =~= st.frames.drop_last());
                        }
                        next = Next::Begin { package, range };
                    } else {
                        next = Next::ReturnOk;
                    }
                },
            }
        }
    }

    /// The state before any package is begun.
    pub open spec fn initial(lock: Map<Seq<char>, LockedModel>, resolved: Map<Seq<char>, Seq<char>>) -> StateModel {
        StateModel {
            lock,
            resolved,
            frames: Seq::empty(),
            pending: PendingModel::Finished { outcome: Ok(()) },
        }
    }

    /// Starts installing `package` for `range`, with the lock file and the packages
    /// already resolved in this run; gives the resolver and its first request.
    pub fn start(lock: LockFile, resolved: StrMap<String>, package: &str, range: &str) -> (r: (
        Resolver,
        Request,
    ))
        ensures
            (r.0@, r.1@) == begin_call(Self::initial(lock.plugins@, resolved@), package@, range@),
            r.0.lock_version() == lock.version,
    {
        let mut resolver = Resolver {
            lock,
            resolved,
            frames: Vec::new(),
            pending: Pending::Finished { outcome: Ok(()) },
        };
        proof {
            assert(resolver@.frames =~= Seq::<FrameModel>::empty());
        }
        let request = resolver.advance(
            Next::Begin { package: String::from_str(package), range: String::from_str(range) },
        );
        (resolver, request)
    }

    /// Takes in what the caller did for the last request and gives the next request.
    /// A reply that does not answer the pending request leaves the resolver as it was
    /// and repeats that request.
    pub fn step(&mut self, reply: Reply) -> (r: Request)
        ensures
            (final(self)@, r@) == step_spec(old(self)@, reply@),
            final(self).lock_version() == old(self).lock_version(),
    {
        let mut pending = Pending::Finished { outcome: Ok(()) };
        std::mem::swap(&mut pending, &mut self.pending);
        match pending {
            Pending::Metadata { package, range } => match reply {
                Reply::Metadata(Err(e)) => self.settle(Pending::Finished { outcome: Err(e) }),
                Reply::Metadata(Ok(metadata)) => self.settle(Pending::Install { package, metadata }),
                _ => {
                    self.pending = Pending::Metadata { package, range };
                    self.repeat()
                },
            },
            Pending::Install { package, metadata } => match reply {
                Reply::Installed(Err(e)) => self.settle(Pending::Finished { outcome: Err(e) }),
                Reply::Installed(Ok(())) => {
                    self.resolved.insert(package.clone(), metadata.version.clone());
                    let locked = LockedPlugin {
                        resolved: metadata.version,
                        tarball: metadata.tarball,
                        sha512: metadata.integrity,
                        dependencies: StrMap::new(),
                    };
                    self.lock.plugins.insert(package.clone(), locked);
                    self.settle(Pending::Manifest { package })
                },
                _ => {
                    self.pending = Pending::Install { package, metadata };
                    self.repeat()
                },
            },
            Pending::Manifest { package } => match reply {
                Reply::PluginManifest(None) => {
                    self.pending = Pending::Manifest { package };
                    self.advance(Next::ReturnOk)
                },
                Reply::PluginManifest(Some(manifest)) => {
                    let deps = copy_pairs(manifest.plugins.entries());
                    if deps.len() == 0 {
                        self.pending = Pending::Manifest { package };
                        self.advance(Next::ReturnOk)
                    } else {
                        let dep = deps[0].0.clone();
                        let range = deps[0].1.clone();
                        proof {
                            assert(pairs_view(deps@)[0] == (deps@[0].0@, deps@[0].1@));
                        }
                        self.pending = Pending::Manifest { package: package.clone() };
                        let ghost before = self@.frames;
                        self.frames.push(Frame { package, deps, next: 0 });
                        proof {
                            assert(self@.frames =~= before.push(self.frames@.last()@));
                        }
                        self.advance(Next::Begin { package: dep, range })
                    }
                },
                _ => {
                    self.pending = Pending::Manifest { package };
                    self.repeat()
                },
            },
            Pending::Finished { outcome } => {
                self.pending = Pending::Finished { outcome };
                self.repeat()
            },
        }
    }

    /// The lock file as the run has it so far.
    pub fn lock_file(&self) -> (r: &LockFile)
        ensures
            r.plugins@ == self@.lock,
    {
        &self.lock
    }

    /// The packages whose dependencies are being installed, outermost first: the chain
    /// of requirements that leads to the package begun last.
    pub open spec fn chain_of(st: StateModel) -> Seq<Seq<char>> {
        st.frames.map_values(|f: FrameModel| f.package)
    }

    /// `e`, where it is a version conflict, with the chain of requirements that led to
    /// the conflicting package and a suggestion to pin its version; any other error as
    /// it is.
    pub fn explain_conflict(&self, e: UepmError) -> (r: UepmError)
        ensures
            r@ == chained_conflict(e@, Self::chain_of(self@)),
    {
        match e {
            UepmError::VersionConflict { package, message } => {
                let ghost chain = Self::chain_of(self@);
                let mut text = message;
                text.append("; required through ");
                let mut i: usize = 0;
                proof {
                    assert(chain.take(0) =~= Seq::<Seq<char>>::empty());
                }
                while i < self.frames.len()
                    invariant
                        i <= self.frames@.len(),
                        chain == Self::chain_of(self@),
                        chain.len() == self.frames@.len(),
                        text@ == message@ + "; required through "@ + chain_text(chain.take(i as int)),
                    decreases self.frames@.len() - i,
                {
                    proof {
                        assert(chain.take(i + 1).drop_last() =~= chain.take(i as int));
                        assert(chain.take(i + 1).last() == self.frames@[i as int]@.package);
                    }
                    text.append(self.frames[i].package.as_str());
                    text.append(" -> ");
                    proof {
                        assert(text@ =~= message@ + "; required through "@ + chain_text(chain.take(i + 1)));
                    }
                    i = i + 1;
                }
                proof {
                    assert(chain.take(self.frames@.len() as int) =~= chain);
                }
                text.append(package.as_str());
                text.append("; pin a version of ");
                text.append(package.as_str());
                text.append(" in Config/UEPM.ini to settle it");
                proof {
                    assert(text@ =~= conflict_explanation(message@, chain, package@));
                }
                UepmError::VersionConflict { package, message: text }
            },
            other => other,
        }
    }

    /// The lock file and the resolved versions, as the run left them.
    pub fn into_parts(self) -> (r: (LockFile, StrMap<String>))
        ensures
            r.0.plugins@ == self@.lock,
            r.0.version == self.lock_version(),
            r.1@ == self@.resolved,
    {
        (self.lock, self.resolved)
    }
}

} // verus!
