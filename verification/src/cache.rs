//! Naming of the per-file cache of LanguageTool answers.

use vstd::prelude::*;
use crate::parse::{text_checksum, xxh3_64};
use crate::text::{decimal, decimal_string};

verus! {

/// The name of the cache file of a source file: the XXH3 hash of its path
/// in decimal, then `.json`.
pub open spec fn spec_cache_file_name(filepath: Seq<char>) -> Seq<char> {
    decimal(text_checksum(filepath) as nat) + ".json"@
}

/// Returns the name, within the cache directory, of the cache file of the
/// source file at `filepath`.
pub fn cache_file_name(filepath: &str) -> (name: String)
    ensures
        name@ == spec_cache_file_name(filepath@),
{
    let filepath_hash = xxh3_64(filepath.as_bytes());
    let mut name = decimal_string(filepath_hash);
    name.append(".json");
    name
}

} // verus!
