//! Feature flags.

pub mod compat;
pub mod incompat;
pub mod journal_feature;
pub mod mount_opts;
pub mod ro_compat;

use vstd::prelude::*;

verus! {

/// Questions about a word of feature flags.
pub struct Ext4Features;

impl Ext4Features {
    pub fn has_extent(incompat: u32) -> (r: bool)
        ensures
            r == (incompat & self::incompat::EXTENTS != 0),
    {
        (incompat & self::incompat::EXTENTS) != 0
    }

    pub fn has_64bit(incompat: u32) -> (r: bool)
        ensures
            r == (incompat & self::incompat::MMETADATA != 0),
    {
        (incompat & self::incompat::MMETADATA) != 0
    }

    pub fn has_large_file(ro_compat: u32) -> (r: bool)
        ensures
            r == (ro_compat & self::ro_compat::LARGE_FILE != 0),
    {
        (ro_compat & self::ro_compat::LARGE_FILE) != 0
    }

    pub fn has_journal(compat: u32) -> (r: bool)
        ensures
            r == (compat & self::compat::JOURNAL != 0),
    {
        (compat & self::compat::JOURNAL) != 0
    }

    pub fn has_metadata_csum(incompat: u32) -> (r: bool)
        ensures
            r == (incompat & self::incompat::METADATA_CSUM != 0),
    {
        (incompat & self::incompat::METADATA_CSUM) != 0
    }

    pub fn has_inline_data(incompat: u32) -> (r: bool)
        ensures
            r == (incompat & self::incompat::INLINE_DATA != 0),
    {
        (incompat & self::incompat::INLINE_DATA) != 0
    }

    pub fn has_fast_commit(incompat: u32) -> (r: bool)
        ensures
            r == (incompat & self::incompat::FAST_COMMIT != 0),
    {
        (incompat & self::incompat::FAST_COMMIT) != 0
    }

    pub fn has_flex_bg(ro_compat: u32) -> (r: bool)
        ensures
            r == (ro_compat & self::ro_compat::FLEX_BG != 0),
    {
        (ro_compat & self::ro_compat::FLEX_BG) != 0
    }
}

} // verus!
