//! Configuration values consumed by geometry resolution.

use vstd::prelude::*;

verus! {

/// Holds the cache directory path used to locate the persisted settings
/// file. The path may be transiently empty while the process starts up and
/// the directory has not been announced yet.
#[derive(Debug, Clone)]
pub struct CacheSettings {
    pub stdpath: String,
}

impl Default for CacheSettings {
    /// A fresh `CacheSettings` starts with an empty path, meaning the cache
    /// directory is not known yet.
    fn default() -> (r: Self)
        ensures
            r.stdpath@ == Seq::<char>::empty(),
    {
        CacheSettings { stdpath: String::new() }
    }
}

/// The name of the settings file inside the cache directory.
pub fn settings_file_name() -> (r: &'static str)
    ensures
        r@ == "neovide_settings.txt"@,
{
    "neovide_settings.txt"
}

/// The record written into a freshly created settings file, remembering the
/// built-in persisted default of 120 by 110 cells.
pub fn default_settings_file_content() -> (r: &'static str)
    ensures
        r@ == "window_dimensions=120x110"@,
{
    "window_dimensions=120x110"
}

} // verus!
