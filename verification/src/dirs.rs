//! Where the files of a ring live.

use std::path::PathBuf;
use vstd::prelude::*;

verus! {

/// `std::path::PathBuf`, an owned path of the file system. This library
/// carries paths and never reads them.
#[verifier::external_type_specification]
#[verifier::external_body]
pub struct ExPathBuf(PathBuf);

/// The directories of a ring, given to it when it is made.
#[derive(Debug)]
pub struct MioDirs {
    /// Where settings are kept.
    pub config_dir: PathBuf,
    /// Where the content of lazy specters is kept.
    pub cache_dir: PathBuf,
    /// Where the content of concrete specters is kept, and the index.
    pub data_dir: PathBuf,
    /// The file of the index.
    pub index_path: PathBuf,
}

/// The root under which the content of a specter is kept.
#[derive(Debug, Clone, Copy, PartialEq, Eq, Structural)]
pub enum StorageRoot {
    /// The data directory, for concrete specters.
    Data,
    /// The cache directory, for lazy specters.
    Cache,
}

} // verus!
