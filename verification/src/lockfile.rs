//! The lock file `uepm.lock`: what each installed plugin resolved to.

use vstd::prelude::*;
use crate::strmap::StrMap;

verus! {

/// A plugin as the lock file records it.
#[derive(Debug)]
pub struct LockedPlugin {
    /// The exact version installed.
    pub resolved: String,
    /// Where its tarball was downloaded from.
    pub tarball: String,
    /// Its integrity string (`sha512-...`).
    pub sha512: String,
    /// Its own dependencies: package name to required range.
    pub dependencies: StrMap<String>,
}

pub struct LockedModel {
    pub resolved: Seq<char>,
    pub tarball: Seq<char>,
    pub sha512: Seq<char>,
    pub dependencies: Map<Seq<char>, Seq<char>>,
}

impl View for LockedPlugin {
    type V = LockedModel;

    open spec fn view(&self) -> LockedModel {
        LockedModel {
            resolved: self.resolved@,
            tarball: self.tarball@,
            sha512: self.sha512@,
            dependencies: self.dependencies@,
        }
    }
}

/// The lock file: format version and the locked plugins by package name.
#[derive(Debug)]
pub struct LockFile {
    pub version: u64,
    pub plugins: StrMap<LockedPlugin>,
}

impl LockFile {
    /// An empty lock file of the current format (version 1).
    pub fn new() -> (l: LockFile)
        ensures
            l.version == 1,
            l.plugins@ == Map::<Seq<char>, LockedModel>::empty(),
    {
        LockFile { version: 1, plugins: StrMap::new() }
    }
}

} // verus!
