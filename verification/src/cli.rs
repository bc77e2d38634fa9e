//! The command-line surface: the mirror directory, and the two ways of
//! selecting the top-level crates --- a newline-delimited file of names, or
//! the top N most downloaded.

use vstd::prelude::*;

verus! {

/// The program's arguments; at least one root selection must be present or
/// the run is a usage error.
pub struct Cli {
    /// Path to the directory where the crates should be mirrored.
    pub mirror_dir_path: String,
    /// Mirror the crates listed in this file, one name per line.
    pub from_file: Option<String>,
    /// Mirror the top N most downloaded crates.
    pub most_downloaded: Option<u64>,
}

impl Cli {
    /// Whether the arguments select any roots at all.
    pub fn selects_roots(&self) -> (r: bool)
        ensures
            r == (self.from_file is Some || self.most_downloaded is Some),
    {
        self.from_file.is_some() || self.most_downloaded.is_some()
    }
}

} // verus!
