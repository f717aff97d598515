//! Verified core of the Unreal Engine plugin manager: manifest handling,
//! dependency resolution decisions, integrity checking and engine discovery.

pub mod entry_paths;
pub mod error;
pub mod installer;
pub mod lockfile;
pub mod manifest;
pub mod paths;
pub mod progress;
pub mod resolution;
pub mod resolver;
pub mod strmap;
pub mod text;
pub mod ue_install;
pub mod versions;
