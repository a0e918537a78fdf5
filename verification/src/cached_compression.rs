//! Settings of the cache of compressed files.

use vstd::prelude::*;

verus! {

/// How hard brotli compression tries, from fast to small.
#[derive(Clone, Copy, Debug, PartialEq, Eq, Structural)]
pub enum BrotliLevel {
    /// Level 0.
    L0,
    /// Level 1.
    L1,
    /// Level 2.
    L2,
    /// Level 3.
    L3,
    /// Level 4.
    L4,
    /// Level 5.
    L5,
    /// Level 6.
    L6,
    /// Level 7.
    L7,
    /// Level 8.
    L8,
    /// Level 9.
    L9,
    /// Level 10.
    L10,
    /// Level 11.
    L11,
}

/// The number of a level.
pub open spec fn level_number(level: BrotliLevel) -> i32 {
    match level {
        BrotliLevel::L0 => 0,
        BrotliLevel::L1 => 1,
        BrotliLevel::L2 => 2,
        BrotliLevel::L3 => 3,
        BrotliLevel::L4 => 4,
        BrotliLevel::L5 => 5,
        BrotliLevel::L6 => 6,
        BrotliLevel::L7 => 7,
        BrotliLevel::L8 => 8,
        BrotliLevel::L9 => 9,
        BrotliLevel::L10 => 10,
        BrotliLevel::L11 => 11,
    }
}

impl vstd::std_specs::convert::FromSpecImpl<BrotliLevel> for i32 {
    open spec fn obeys_from_spec() -> bool {
        true
    }

    open spec fn from_spec(level: BrotliLevel) -> Self {
        level_number(level)
    }
}

impl From<BrotliLevel> for i32 {
    fn from(level: BrotliLevel) -> (r: Self) {
        match level {
            BrotliLevel::L0 => 0,
            BrotliLevel::L1 => 1,
            BrotliLevel::L2 => 2,
            BrotliLevel::L3 => 3,
            BrotliLevel::L4 => 4,
            BrotliLevel::L5 => 5,
            BrotliLevel::L6 => 6,
            BrotliLevel::L7 => 7,
            BrotliLevel::L8 => 8,
            BrotliLevel::L9 => 9,
            BrotliLevel::L10 => 10,
            BrotliLevel::L11 => 11,
        }
    }
}

/// Settings of the cache of compressed files.
pub struct CachedCompression {
    /// The largest number of cached files.
    pub capacity: u16,
    /// The size in bytes above which a file is not compressed.
    pub max_file_size: u64,
    /// How hard compression tries.
    pub compression_level: BrotliLevel,
    /// The largest total size of the cached files, in bytes.
    pub max_total_weight: u32,
    /// The extensions of the files that are compressed; the default text types where there are
    /// none.
    pub supported_extensions: Option<Vec<&'static str>>,
}

impl CachedCompression {
    /// The default settings.
    pub fn new() -> (r: Self)
        ensures
            r.capacity == 1024,
            r.max_file_size == 10 * 1024 * 1024,
            r.compression_level == BrotliLevel::L5,
            r.max_total_weight == 1024 * 1024 * 1024,
            r.supported_extensions is None,
    {
        CachedCompression {
            capacity: 1024,
            max_file_size: 10 * 1024 * 1024,
            compression_level: BrotliLevel::L5,
            max_total_weight: 1024 * 1024 * 1024,
            supported_extensions: None,
        }
    }

    /// Sets the largest number of cached files. Defaults to 1024.
    pub fn capacity(self, capacity: u16) -> (r: Self)
        ensures
            r == (CachedCompression { capacity, ..self }),
    {
        CachedCompression { capacity, ..self }
    }

    /// Sets the size in bytes above which a file is not compressed. Defaults to 10 MiB.
    pub fn max_file_size(self, max_file_size: u64) -> (r: Self)
        ensures
            r == (CachedCompression { max_file_size, ..self }),
    {
        CachedCompression { max_file_size, ..self }
    }

    /// Sets how hard compression tries. Defaults to level 5.
    pub fn compression_level(self, compression_level: BrotliLevel) -> (r: Self)
        ensures
            r == (CachedCompression { compression_level, ..self }),
    {
        CachedCompression { compression_level, ..self }
    }

    /// Sets the largest total size of the cached files, in bytes. Defaults to 1 GiB.
    pub fn max_total_weight(self, max_total_weight: u32) -> (r: Self)
        ensures
            r == (CachedCompression { max_total_weight, ..self }),
    {
        CachedCompression { max_total_weight, ..self }
    }

    /// Sets the extensions of the files that are compressed. Defaults to the text types.
    pub fn supported_extensions(self, supported_extensions: Option<Vec<&'static str>>) -> (r: Self)
        ensures
            r == (CachedCompression { supported_extensions, ..self }),
    {
        CachedCompression { supported_extensions, ..self }
    }
}

impl Default for CachedCompression {
    fn default() -> (r: Self)
        ensures
            r.capacity == 1024,
            r.max_file_size == 10 * 1024 * 1024,
            r.compression_level == BrotliLevel::L5,
            r.max_total_weight == 1024 * 1024 * 1024,
            r.supported_extensions is None,
    {
        CachedCompression::new()
    }
}

/// The levels count up from zero to eleven.
pub proof fn lemma_levels(level: BrotliLevel, r: i32)
    requires
        call_ensures(<i32 as From<BrotliLevel>>::from, (level,), r),
    ensures
        r == level_number(level),
        level_number(BrotliLevel::L0) == 0,
        level_number(BrotliLevel::L1) == level_number(BrotliLevel::L0) + 1,
        level_number(BrotliLevel::L2) == level_number(BrotliLevel::L1) + 1,
        level_number(BrotliLevel::L3) == level_number(BrotliLevel::L2) + 1,
        level_number(BrotliLevel::L4) == level_number(BrotliLevel::L3) + 1,
        level_number(BrotliLevel::L5) == level_number(BrotliLevel::L4) + 1,
        level_number(BrotliLevel::L6) == level_number(BrotliLevel::L5) + 1,
        level_number(BrotliLevel::L7) == level_number(BrotliLevel::L6) + 1,
        level_number(BrotliLevel::L8) == level_number(BrotliLevel::L7) + 1,
        level_number(BrotliLevel::L9) == level_number(BrotliLevel::L8) + 1,
        level_number(BrotliLevel::L10) == level_number(BrotliLevel::L9) + 1,
        level_number(BrotliLevel::L11) == level_number(BrotliLevel::L10) + 1,
{
}

/// The default settings: at most 1024 files of at most 10 MiB each and 1 GiB together, compressed
/// at level 5, where they are text.
pub proof fn lemma_default_settings(a: CachedCompression, b: CachedCompression)
    requires
        call_ensures(CachedCompression::new, (), a),
        call_ensures(<CachedCompression as Default>::default, (), b),
    ensures
        a.capacity == 1024,
        a.max_file_size == 10_485_760,
        a.compression_level == BrotliLevel::L5,
        a.max_total_weight == 1_073_741_824,
        a.supported_extensions is None,
        b == a,
{
}

/// Each setter sets its own value and leaves the others.
pub proof fn lemma_setters(
    a: CachedCompression,
    capacity: u16,
    b: CachedCompression,
    max_file_size: u64,
    c: CachedCompression,
    level: BrotliLevel,
    d: CachedCompression,
    max_total_weight: u32,
    e: CachedCompression,
    extensions: Option<Vec<&'static str>>,
    f: CachedCompression,
)
    requires
        call_ensures(CachedCompression::capacity, (a, capacity), b),
        call_ensures(CachedCompression::max_file_size, (a, max_file_size), c),
        call_ensures(CachedCompression::compression_level, (a, level), d),
        call_ensures(CachedCompression::max_total_weight, (a, max_total_weight), e),
        call_ensures(CachedCompression::supported_extensions, (a, extensions), f),
    ensures
        b == (CachedCompression { capacity: capacity, ..a }),
        c == (CachedCompression { max_file_size: max_file_size, ..a }),
        d == (CachedCompression { compression_level: level, ..a }),
        e == (CachedCompression { max_total_weight: max_total_weight, ..a }),
        f == (CachedCompression { supported_extensions: extensions, ..a }),
{
}

} // verus!
