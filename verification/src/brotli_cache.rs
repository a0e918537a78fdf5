//! A cache of brotli-compressed files.

use crate::cached_compression::{level_number, CachedCompression};
use crate::file::FileInfo;
use crate::node::ContentEncoding;
use crate::paths::{display_path, displayed, extension_of, path_bytes, path_extension};
use std::path::PathBuf;
use std::time::SystemTime;
use vstd::hash_set::StringHashSet;
use vstd::prelude::*;
use vstd::string::StringExecFns;

verus! {

/// A file that answers a request.
pub struct MatchedFile {
    /// The number under which the open file is kept.
    pub handle: u64,
    /// What identifies the file.
    pub file_info: FileInfo,
    /// The encoding in which it is stored.
    pub content_encoding: ContentEncoding,
    /// The extension that was asked for.
    pub extension: String,
}

impl Clone for MatchedFile {
    fn clone(&self) -> (r: Self)
        ensures
            r == *self,
    {
        MatchedFile {
            handle: self.handle,
            file_info: self.file_info,
            content_encoding: self.content_encoding,
            extension: self.extension.clone(),
        }
    }
}

impl sieve_cache::Weigh for FileInfo {
    fn weigh(&self) -> (r: usize)
        ensures
            r == 0,
    {
        0
    }
}

/// What a cached file weighs.
pub open spec fn file_weight(file: MatchedFile) -> usize {
    file.file_info.len as usize
}

impl sieve_cache::Weigh for MatchedFile {
    fn weigh(&self) -> (r: usize)
        ensures
            r == file_weight(*self),
    {
        self.file_info.len() as usize
    }
}

/// Compressed files by what identifies the original, limited in number and total size.
///
/// It is opaque: it holds a `sieve_cache::WeightedShardedSieveCache`.
#[verifier::external_body]
pub struct FileCache {
    cache: sieve_cache::WeightedShardedSieveCache<FileInfo, MatchedFile>,
}

/// The files that a cache holds.
pub uninterp spec fn cached_files(cache: FileCache) -> Map<FileInfo, MatchedFile>;

/// The largest number of files that a cache was made for.
pub uninterp spec fn entry_limit(cache: FileCache) -> int;

/// The largest total weight that a cache was made for.
pub uninterp spec fn weight_limit(cache: FileCache) -> int;

/// The cache's own account of the weights is exact: no file in it is longer than half of what a
/// `usize` counts up to, and none was since the cache was made or cleared.
pub uninterp spec fn weighs_exactly(cache: FileCache) -> bool;

/// The part of a cache, of sixteen, that each key falls into, by the hash that the cache was made
/// with.
pub uninterp spec fn key_parts(cache: FileCache) -> Map<FileInfo, int>;

/// The cache can put files out: its marks of where to look next are within bounds.
pub uninterp spec fn can_evict(cache: FileCache) -> bool;

/// The number of entries that a cache of this capacity is made for: each of its sixteen parts holds
/// at least one.
pub open spec fn rounded_capacity(capacity: int) -> int {
    if capacity < 16 {
        16
    } else {
        capacity
    }
}

/// A cache without files.
pub open spec fn no_files() -> Map<FileInfo, MatchedFile> {
    Map::empty()
}

/// The lengths of the files, taken together.
pub open spec fn total_len(files: Map<FileInfo, MatchedFile>) -> int
    decreases files.dom().len(),
{
    if files.dom().finite() && files.dom().len() > 0 {
        let key = files.dom().choose();
        files[key].file_info.len + total_len(files.remove(key))
    } else {
        0
    }
}

/// The share of a limit that a part has: a sixteenth, and the first parts what is left over.
pub open spec fn share(limit: int, part: int) -> int {
    limit / 16 + if part < limit % 16 {
        1int
    } else {
        0
    }
}

/// The files whose keys fall into a part.
pub open spec fn in_part(
    files: Map<FileInfo, MatchedFile>,
    parts: Map<FileInfo, int>,
    part: int,
) -> Map<FileInfo, MatchedFile> {
    Map::new(
        |key: FileInfo| files.contains_key(key) && parts[key] == part,
        |key: FileInfo| files[key],
    )
}

/// No part holds more files than its share.
pub open spec fn counted(
    files: Map<FileInfo, MatchedFile>,
    parts: Map<FileInfo, int>,
    entry_limit: int,
) -> bool {
    &&& files.dom().finite()
    &&& forall|part: int|
        0 <= part < 16 ==> (#[trigger] in_part(files, parts, part)).dom().len() <= share(
            entry_limit,
            part,
        )
}

/// No part holds more files than its share, nor heavier ones, but for a single file.
pub open spec fn fits(
    files: Map<FileInfo, MatchedFile>,
    parts: Map<FileInfo, int>,
    entry_limit: int,
    weight_limit: int,
) -> bool {
    &&& counted(files, parts, entry_limit)
    &&& forall|part: int|
        0 <= part < 16 ==> (#[trigger] in_part(files, parts, part)).dom().len() <= 1 || total_len(
            in_part(files, parts, part),
        ) <= share(weight_limit, part)
}

/// No file is longer than half of what a `usize` counts up to.
pub open spec fn all_short(files: Map<FileInfo, MatchedFile>) -> bool {
    forall|key: FileInfo| #[trigger]
        files.contains_key(key) ==> files[key].file_info.len <= usize::MAX / 2
}

/// Every key falls into one of the sixteen parts.
pub open spec fn sixteen(parts: Map<FileInfo, int>) -> bool {
    forall|key: FileInfo| 0 <= #[trigger] parts[key] < 16
}

/// `WeightedShardedSieveCache::new`: an empty cache, where there is room for a file and a byte of
/// weight for each of its sixteen parts. It panics on a capacity that memory cannot hold.
#[verifier::external_body]
fn new_files(capacity: usize, max_weight: usize) -> (r: Result<FileCache, &'static str>)
    requires
        capacity <= 65_536,
    ensures
        r is Ok == (capacity > 0 && max_weight >= 16),
        r matches Ok(files) ==> cached_files(files) == no_files(),
        r matches Ok(files) ==> entry_limit(files) == rounded_capacity(capacity as int),
        r matches Ok(files) ==> weight_limit(files) == max_weight,
        r matches Ok(files) ==> sixteen(key_parts(files)),
        r matches Ok(files) ==> weighs_exactly(files),
        r matches Ok(files) ==> can_evict(files),
{
    match sieve_cache::WeightedShardedSieveCache::new(capacity, max_weight) {
        Ok(cache) => Ok(FileCache { cache }),
        Err(e) => Err(e),
    }
}

/// `WeightedShardedSieveCache::capacity`: the number of entries that the cache was made for.
#[verifier::external_body]
fn files_capacity(files: &FileCache) -> (r: usize)
    ensures
        r == entry_limit(*files),
{
    files.cache.capacity()
}

/// `WeightedShardedSieveCache::get`: a clone of the file that is cached under the key, if there is
/// any.
#[verifier::external_body]
fn get_file(files: &FileCache, key: &FileInfo) -> (r: Option<MatchedFile>)
    ensures
        match r {
            Some(file) => cached_files(*files).contains_pair(*key, file),
            None => !cached_files(*files).contains_key(*key),
        },
{
    files.cache.get(key)
}

/// No file is in `after` that was not in `before`.
pub open spec fn part_of(
    after: Map<FileInfo, MatchedFile>,
    before: Map<FileInfo, MatchedFile>,
) -> bool {
    forall|key: FileInfo| #[trigger]
        after.contains_key(key) ==> before.contains_pair(key, after[key])
}

/// There are no more files than the limit has it.
pub open spec fn within(files: Map<FileInfo, MatchedFile>, limit: int) -> bool {
    files.dom().finite() && files.dom().len() <= limit
}

/// The file came in, and one other at most went out.
pub open spec fn one_out(
    after: Map<FileInfo, MatchedFile>,
    before: Map<FileInfo, MatchedFile>,
    key: FileInfo,
    file: MatchedFile,
) -> bool {
    exists|out: FileInfo| after == #[trigger] before.remove(out).insert(key, file)
}

/// A part has no room for one more file.
pub open spec fn is_full(
    files: Map<FileInfo, MatchedFile>,
    parts: Map<FileInfo, int>,
    entry_limit: int,
    part: int,
) -> bool {
    in_part(files, parts, part).dom().len() >= share(entry_limit, part)
}

/// A file went out of the part that would be too heavy with it.
pub open spec fn was_too_heavy(
    after: Map<FileInfo, MatchedFile>,
    before: Map<FileInfo, MatchedFile>,
    parts: Map<FileInfo, int>,
    weight_limit: int,
    part: int,
) -> bool {
    exists|out: FileInfo|
        {
            &&& #[trigger] before.contains_key(out)
            &&& !after.contains_key(out)
            &&& parts[out] == part
            &&& total_len(in_part(after, parts, part).insert(out, before[out])) > share(
                weight_limit,
                part,
            )
        }
}

/// What is cached after a file was put in: the file, and nothing else that is new. Files go out of
/// the part of its key only: none, unless the part was full or is too heavy; one at most for the
/// number; and for the weight none too many, so that some file that went would be too much.
pub open spec fn inserted(
    after: Map<FileInfo, MatchedFile>,
    before: Map<FileInfo, MatchedFile>,
    parts: Map<FileInfo, int>,
    entry_limit: int,
    weight_limit: int,
    key: FileInfo,
    file: MatchedFile,
) -> bool {
    &&& after.contains_pair(key, file)
    &&& part_of(after, before.insert(key, file))
    &&& forall|other: FileInfo| #[trigger]
        before.contains_key(other) && parts[other] != parts[key] ==> after.contains_key(other)
    &&& {
        ||| after == before.insert(key, file)
        ||| !before.contains_key(key) && is_full(before, parts, entry_limit, parts[key]) && one_out(
            after,
            before,
            key,
            file,
        )
        ||| was_too_heavy(after, before, parts, weight_limit, parts[key])
    }
}

/// `WeightedShardedSieveCache::insert`: puts the file in under the key, in place of one that was
/// there. The cache is made of sixteen parts, each with its share of both limits, and the part of a
/// key puts others out to keep to them: one where it is full, and as many as it takes while it is
/// too heavy and holds more than one. Which of the part go is left open. It panics where the marks
/// of where to look for those are out of bounds. Weights are added up exactly as long as no file is
/// longer than half of what a `usize` counts up to.
#[verifier::external_body]
fn insert_file(files: &mut FileCache, key: FileInfo, file: MatchedFile) -> (r: bool)
    requires
        can_evict(*old(files)),
    ensures
        r == !cached_files(*old(files)).contains_key(key),
        inserted(
            cached_files(*final(files)),
            cached_files(*old(files)),
            key_parts(*old(files)),
            entry_limit(*old(files)),
            weight_limit(*old(files)),
            key,
            file,
        ),
        counted(
            cached_files(*final(files)),
            key_parts(*final(files)),
            entry_limit(*final(files)),
        ),
        weighs_exactly(*final(files)) ==> fits(
            cached_files(*final(files)),
            key_parts(*final(files)),
            entry_limit(*final(files)),
            weight_limit(*final(files)),
        ),
        weighs_exactly(*final(files)) == (weighs_exactly(*old(files)) && file.file_info.len
            <= usize::MAX / 2),
        entry_limit(*final(files)) == entry_limit(*old(files)),
        weight_limit(*final(files)) == weight_limit(*old(files)),
        key_parts(*final(files)) == key_parts(*old(files)),
        can_evict(*final(files)),
{
    files.cache.insert(key, file)
}

/// The pairs are those of the map, each once.
pub open spec fn lists_all(
    pairs: Seq<(FileInfo, MatchedFile)>,
    files: Map<FileInfo, MatchedFile>,
) -> bool {
    &&& forall|i: int|
        0 <= i < pairs.len() ==> files.contains_pair((#[trigger] pairs[i]).0, pairs[i].1)
    &&& forall|i: int, j: int|
        0 <= i < j < pairs.len() ==> (#[trigger] pairs[i]).0 != (#[trigger] pairs[j]).0
    &&& forall|key: FileInfo| #[trigger]
        files.contains_key(key) ==> exists|i: int|
            0 <= i < pairs.len() && (#[trigger] pairs[i]).0 == key
}

/// `WeightedShardedSieveCache::entries`: clones of all keys and files, in some order.
#[verifier::external_body]
fn list_files(files: &FileCache) -> (r: Vec<(FileInfo, MatchedFile)>)
    ensures
        lists_all(r@, cached_files(*files)),
{
    files.cache.entries()
}

/// Whether a key is in a list.
fn is_listed(keys: &Vec<FileInfo>, key: &FileInfo) -> (r: bool)
    ensures
        r == keys@.contains(*key),
{
    let mut i: usize = 0;
    while i < keys.len()
        invariant
            i <= keys@.len(),
            forall|j: int| 0 <= j < i ==> keys@[j] != *key,
        decreases keys@.len() - i,
    {
        if keys[i] == *key {
            return true;
        }
        i = i + 1;
    }
    false
}

/// `WeightedShardedSieveCache::retain` by a list of keys: what is cached under other keys is put
/// out. Nothing is said of the marks of where to look next: they may be out of bounds then.
#[verifier::external_body]
fn retain_files(files: &mut FileCache, keys: &Vec<FileInfo>)
    ensures
        cached_files(*final(files)) == cached_files(*old(files)).restrict(keys@.to_set()),
        entry_limit(*final(files)) == entry_limit(*old(files)),
        weight_limit(*final(files)) == weight_limit(*old(files)),
        key_parts(*final(files)) == key_parts(*old(files)),
        weighs_exactly(*final(files)) == weighs_exactly(*old(files)),
{
    files.cache.retain(|key, _| is_listed(keys, key));
}

/// `WeightedShardedSieveCache::clear`: puts everything out.
#[verifier::external_body]
fn clear_files(files: &mut FileCache)
    ensures
        cached_files(*final(files)) == no_files(),
        entry_limit(*final(files)) == entry_limit(*old(files)),
        weight_limit(*final(files)) == weight_limit(*old(files)),
        key_parts(*final(files)) == key_parts(*old(files)),
        weighs_exactly(*final(files)),
        can_evict(*final(files)),
{
    files.cache.clear();
}

/// The kept keys are half of the keys, rounded down, and none of their files is larger than one
/// that is not kept.
pub open spec fn is_smaller_half(kept: Set<FileInfo>, files: Map<FileInfo, MatchedFile>) -> bool {
    &&& kept.subset_of(files.dom())
    &&& kept.len() == files.dom().len() / 2
    &&& forall|a: FileInfo, b: FileInfo|
        #![trigger kept.contains(a), files.contains_key(b)]
        kept.contains(a) && files.contains_key(b) && !kept.contains(b) ==> files[a].file_info.len
            <= files[b].file_info.len
}

/// The keys of the pairs.
pub open spec fn keys_of(pairs: Seq<(u64, FileInfo)>) -> Seq<FileInfo> {
    pairs.map_values(|pair: (u64, FileInfo)| pair.1)
}

/// The lengths do not fall along the pairs.
pub open spec fn in_order(pairs: Seq<(u64, FileInfo)>) -> bool {
    forall|i: int, j: int| 0 <= i <= j < pairs.len() ==> pairs[i].0 <= pairs[j].0
}

/// Puts a pair in where the order has it.
fn insert_in_order(pairs: &mut Vec<(u64, FileInfo)>, pair: (u64, FileInfo)) -> (at: usize)
    requires
        in_order(old(pairs)@),
    ensures
        in_order(final(pairs)@),
        at <= old(pairs)@.len(),
        final(pairs)@ == old(pairs)@.insert(at as int, pair),
{
    let mut at: usize = pairs.len();
    while at > 0 && pairs[at - 1].0 > pair.0
        invariant
            at <= pairs@.len(),
            pairs@ == old(pairs)@,
            in_order(pairs@),
            forall|i: int| at <= i < pairs@.len() ==> pairs@[i].0 > pair.0,
        decreases at,
    {
        at = at - 1;
    }
    let ghost before = pairs@;
    assert(forall|i: int| 0 <= i < at ==> before[i].0 <= pair.0) by {
        if at > 0 {
            assert(before[at - 1].0 <= pair.0);
        }
    }
    pairs.insert(at, pair);
    at
}

/// The first half of all keys, in the order of the lengths of their files, is a smaller half.
proof fn lemma_smaller_half(
    sorted: Seq<(u64, FileInfo)>,
    entries: Seq<(FileInfo, MatchedFile)>,
    files: Map<FileInfo, MatchedFile>,
)
    requires
        lists_all(entries, files),
        sorted.len() == entries.len(),
        in_order(sorted),
        forall|j: int|
            0 <= j < sorted.len() ==> files.contains_key((#[trigger] sorted[j]).1) && sorted[j].0
                == files[sorted[j].1].file_info.len,
        forall|j: int, k: int|
            0 <= j < k < sorted.len() ==> (#[trigger] sorted[j]).1 != (#[trigger] sorted[k]).1,
    ensures
        is_smaller_half(keys_of(sorted).take(sorted.len() as int / 2).to_set(), files),
{
    let half = sorted.len() as int / 2;
    let keys = keys_of(sorted);
    let listed = entries.map_values(|pair: (FileInfo, MatchedFile)| pair.0);
    assert(keys.no_duplicates()) by {
        assert forall|i: int, j: int|
            0 <= i < keys.len() && 0 <= j < keys.len() && i != j implies keys[i] != keys[j] by {
            assert(keys[i] == sorted[i].1 && keys[j] == sorted[j].1);
        }
    }
    assert(listed.no_duplicates()) by {
        assert forall|i: int, j: int|
            0 <= i < listed.len() && 0 <= j < listed.len() && i != j implies listed[i]
            != listed[j] by {
            assert(listed[i] == entries[i].0 && listed[j] == entries[j].0);
        }
    }
    keys.unique_seq_to_set();
    listed.unique_seq_to_set();
    assert(listed.to_set() =~= files.dom()) by {
        assert forall|key: FileInfo| listed.to_set().contains(key) implies files.contains_key(
            key,
        ) by {
            let i = choose|i: int| 0 <= i < listed.len() && listed[i] == key;
            assert(files.contains_pair(entries[i].0, entries[i].1));
        }
        assert forall|key: FileInfo| files.contains_key(key) implies listed.to_set().contains(
            key,
        ) by {
            let i = choose|i: int| 0 <= i < entries.len() && (#[trigger] entries[i]).0 == key;
            assert(listed[i] == key);
        }
    }
    vstd::seq_lib::seq_to_set_is_finite(keys);
    vstd::seq_lib::seq_to_set_is_finite(listed);
    assert(keys.to_set().subset_of(files.dom())) by {
        assert forall|key: FileInfo| keys.to_set().contains(key) implies files.contains_key(
            key,
        ) by {
            let i = choose|i: int| 0 <= i < keys.len() && keys[i] == key;
            assert(files.contains_key(sorted[i].1));
        }
    }
    vstd::set_lib::lemma_subset_equality(keys.to_set(), files.dom());
    let first = keys.take(half);
    let kept = first.to_set();
    assert(first.no_duplicates());
    first.unique_seq_to_set();
    assert forall|key: FileInfo| kept.contains(key) implies files.contains_key(key) by {
        let i = choose|i: int| 0 <= i < first.len() && first[i] == key;
        assert(keys[i] == key);
        assert(keys.to_set().contains(key));
    }
    assert forall|a: FileInfo, b: FileInfo|
        #![trigger kept.contains(a), files.contains_key(b)]
        kept.contains(a) && files.contains_key(b) && !kept.contains(
            b,
        ) implies files[a].file_info.len <= files[b].file_info.len by {
        let i = choose|i: int| 0 <= i < first.len() && first[i] == a;
        assert(keys.to_set().contains(b));
        let j = choose|j: int| 0 <= j < keys.len() && keys[j] == b;
        if j < half {
            assert(first[j] == b);
        }
        assert(sorted[i].1 == a && sorted[j].1 == b);
        assert(sorted[i].0 <= sorted[j].0);
    }
}

/// The keys of the smaller half of the files.
fn smaller_half(
    entries: &Vec<(FileInfo, MatchedFile)>,
    files: Ghost<Map<FileInfo, MatchedFile>>,
) -> (r: Vec<FileInfo>)
    requires
        lists_all(entries@, files@),
    ensures
        is_smaller_half(r@.to_set(), files@),
{
    let mut sorted: Vec<(u64, FileInfo)> = Vec::new();
    let mut i: usize = 0;
    while i < entries.len()
        invariant
            lists_all(entries@, files@),
            i <= entries@.len(),
            sorted@.len() == i,
            in_order(sorted@),
            forall|j: int|
                0 <= j < i ==> files@.contains_key((#[trigger] sorted@[j]).1) && sorted@[j].0
                    == files@[sorted@[j].1].file_info.len,
            forall|j: int|
                0 <= j < i ==> exists|k: int|
                    0 <= k < i && (#[trigger] entries@[k]).0 == (#[trigger] sorted@[j]).1,
            forall|j: int, k: int|
                0 <= j < k < i ==> (#[trigger] sorted@[j]).1 != (#[trigger] sorted@[k]).1,
        decreases entries@.len() - i,
    {
        let ghost before = sorted@;
        let key = entries[i].0;
        let len = entries[i].1.file_info.len;
        let at = insert_in_order(&mut sorted, (len, key));
        assert(forall|j: int| 0 <= j < i ==> (#[trigger] before[j]).1 != key);
        i = i + 1;
    }
    let half = sorted.len() / 2;
    let mut kept: Vec<FileInfo> = Vec::new();
    let mut n: usize = 0;
    while n < half
        invariant
            n <= half <= sorted@.len(),
            kept@ == keys_of(sorted@).take(n as int),
        decreases half - n,
    {
        kept.push(sorted[n].1);
        n = n + 1;
    }
    proof {
        lemma_smaller_half(sorted@, entries@, files@);
    }
    kept
}

/// The bytes of a number in reverse order.
pub open spec fn reversed_bytes(x: u64) -> u64 {
    ((x & 0xff) << 56) | ((x & 0xff00) << 40) | ((x & 0xff0000) << 24) | ((x & 0xff000000) << 8)
        | ((x >> 8) & 0xff000000) | ((x >> 24) & 0xff0000) | ((x >> 40) & 0xff00) | ((x >> 56)
        & 0xff)
}

/// `u64::swap_bytes`: the bytes in reverse order.
pub assume_specification[ u64::swap_bytes ](x: u64) -> (r: u64)
    ensures
        r == reversed_bytes(x),
;

/// Two files of different path hashes have compressed copies of different path hashes.
pub proof fn lemma_pseudo_hash_tells_apart(a: u64, b: u64)
    ensures
        reversed_bytes(reversed_bytes(a)) == a,
        reversed_bytes(a) == reversed_bytes(b) ==> a == b,
{
    assert(reversed_bytes(reversed_bytes(a)) == a) by (bit_vector);
    assert(reversed_bytes(reversed_bytes(b)) == b) by (bit_vector);
}

/// What brotli is told of the content.
#[derive(Clone, Copy, Debug, PartialEq, Eq, Structural)]
pub enum BrotliMode {
    /// Text.
    Text,
    /// Anything.
    Generic,
}

/// How a file is to be compressed.
#[derive(Clone, Copy, Debug, PartialEq, Eq, Structural)]
pub struct CompressionParams {
    /// How hard compression tries.
    pub quality: i32,
    /// What the content is.
    pub mode: BrotliMode,
    /// The size to expect; zero where it is not known.
    pub size_hint: usize,
}

/// The extensions that are compressed by default.
pub open spec fn default_text_types() -> Set<Seq<char>> {
    set![
        "html"@,
        "htm"@,
        "xhtml"@,
        "css"@,
        "js"@,
        "json"@,
        "xml"@,
        "svg"@,
        "txt"@,
        "csv"@,
        "tsv"@,
        "md"@,
    ]
}

/// The texts in a list.
pub open spec fn text_set(list: Seq<&str>) -> Set<Seq<char>> {
    list.map_values(|text: &str| text@).to_set()
}

/// What a cache of compressed files holds, and its settings.
#[verifier::ext_equal]
pub struct CacheState {
    /// The cached files, by what identifies the original.
    pub files: Map<FileInfo, MatchedFile>,
    /// The largest number of cached files.
    pub capacity: int,
    /// The largest total size of the cached files, in bytes.
    pub max_total_weight: int,
    /// The part of the cache that each key falls into.
    pub parts: Map<FileInfo, int>,
    /// How hard compression tries.
    pub quality: i32,
    /// The extensions of the files that are compressed.
    pub extensions: Set<Seq<char>>,
    /// The size in bytes above which a file is not compressed.
    pub max_file_size: u64,
}

impl CacheState {
    /// No part of the cache holds more files than its share, nor heavier ones, but for a single
    /// file.
    pub open spec fn in_bounds(self) -> bool {
        fits(self.files, self.parts, self.capacity, self.max_total_weight)
    }
}

/// The state of a new cache, whose keys fall into these parts.
pub open spec fn initial_state(
    settings: CachedCompression,
    parts: Map<FileInfo, int>,
) -> CacheState {
    CacheState {
        files: no_files(),
        capacity: rounded_capacity(settings.capacity as int),
        max_total_weight: settings.max_total_weight as int,
        parts,
        quality: level_number(settings.compression_level),
        extensions: match settings.supported_extensions {
            Some(list) => text_set(list@),
            None => default_text_types(),
        },
        max_file_size: settings.max_file_size,
    }
}

/// A service that creates and reuses brotli-compressed versions of files: it decides when a file is
/// compressed, when a compressed copy is reused, and when the original is served.
pub struct BrotliCache {
    files: FileCache,
    /// Files were put out in a way that may have left the cache unable to put out more.
    stale: bool,
    quality: i32,
    supported_extensions: StringHashSet,
    max_file_size: u64,
}

impl View for BrotliCache {
    type V = CacheState;

    closed spec fn view(&self) -> CacheState {
        CacheState {
            files: cached_files(self.files),
            capacity: entry_limit(self.files),
            max_total_weight: weight_limit(self.files),
            parts: key_parts(self.files),
            quality: self.quality,
            extensions: self.supported_extensions@,
            max_file_size: self.max_file_size,
        }
    }
}

/// The extensions in a list.
fn extension_set(list: &Vec<&'static str>) -> (r: StringHashSet)
    ensures
        r@ == text_set(list@),
{
    let mut extensions = StringHashSet::new();
    let ghost texts = list@.map_values(|text: &str| text@);
    let mut i: usize = 0;
    assert(texts.take(0).to_set() =~= Set::empty());
    while i < list.len()
        invariant
            i <= list@.len(),
            texts == list@.map_values(|text: &str| text@),
            extensions@ == texts.take(i as int).to_set(),
        decreases list@.len() - i,
    {
        extensions.insert(String::from_str(list[i]));
        proof {
            let before = texts.take(i as int);
            let after = texts.take(i + 1);
            assert(after =~= before.push(texts[i as int]));
            assert forall|text: Seq<char>| after.contains(text) == (before.contains(text) || text
                == texts[i as int]) by {
                if before.contains(text) {
                    let j = choose|j: int| 0 <= j < before.len() && before[j] == text;
                    assert(after[j] == text);
                }
                assert(after[i as int] == texts[i as int]);
                if after.contains(text) {
                    let j = choose|j: int| 0 <= j < after.len() && after[j] == text;
                    if j < i {
                        assert(before[j] == text);
                    }
                }
            }
            assert(after.to_set() =~= before.to_set().insert(texts[i as int]));
        }
        i = i + 1;
    }
    assert(texts.take(i as int) =~= texts);
    extensions
}

/// The extensions that are compressed by default.
fn default_extension_set() -> (r: StringHashSet)
    ensures
        r@ == default_text_types(),
{
    let mut extensions = StringHashSet::new();
    extensions.insert(String::from_str("html"));
    extensions.insert(String::from_str("htm"));
    extensions.insert(String::from_str("xhtml"));
    extensions.insert(String::from_str("css"));
    extensions.insert(String::from_str("js"));
    extensions.insert(String::from_str("json"));
    extensions.insert(String::from_str("xml"));
    extensions.insert(String::from_str("svg"));
    extensions.insert(String::from_str("txt"));
    extensions.insert(String::from_str("csv"));
    extensions.insert(String::from_str("tsv"));
    extensions.insert(String::from_str("md"));
    assert(extensions@ =~= default_text_types());
    extensions
}

impl BrotliCache {
    /// The cache holds no more files than it was made for, and can put files out where it does not
    /// know better.
    pub closed spec fn wf(&self) -> bool {
        &&& counted(cached_files(self.files), key_parts(self.files), entry_limit(self.files))
        &&& sixteen(key_parts(self.files))
        &&& entry_limit(self.files) >= 0
        &&& weight_limit(self.files) >= 0
        &&& weighs_exactly(self.files) ==> self@.in_bounds() && all_short(self@.files)
        &&& !self.stale ==> can_evict(self.files)
    }

    /// No cached file is longer than half of what a `usize` counts up to, and none was.
    pub closed spec fn weighs_exactly(&self) -> bool {
        weighs_exactly(self.files)
    }

    /// Creates a cache from its settings.
    pub fn from(settings: CachedCompression) -> (r: Self)
        requires
            settings.capacity > 0,
            settings.max_total_weight >= 16,
        ensures
            r.wf(),
            r@ == initial_state(settings, r@.parts),
            sixteen(r@.parts),
            r@.in_bounds(),
            r.weighs_exactly(),
    {
        let files = new_files(
            settings.capacity as usize,
            settings.max_total_weight as usize,
        ).expect("brotli cache capacity and max total weight cannot be zero");
        let supported_extensions = match &settings.supported_extensions {
            Some(list) => extension_set(list),
            None => default_extension_set(),
        };
        proof {
            lemma_nothing_fits(
                key_parts(files),
                entry_limit(files),
                weight_limit(files),
            );
        }
        BrotliCache {
            files,
            stale: false,
            quality: i32::from(settings.compression_level),
            supported_extensions,
            max_file_size: settings.max_file_size,
        }
    }

    /// The largest number of cached files.
    pub fn capacity(&self) -> (r: usize)
        ensures
            r == self@.capacity,
    {
        files_capacity(&self.files)
    }

    /// How hard compression tries.
    pub fn quality(&self) -> (r: i32)
        ensures
            r == self@.quality,
    {
        self.quality
    }

    /// The size in bytes above which a file is not compressed.
    pub fn max_file_size(&self) -> (r: u64)
        ensures
            r == self@.max_file_size,
    {
        self.max_file_size
    }

    /// Whether files of an extension are compressed.
    pub fn supports(&self, extension: &str) -> (r: bool)
        ensures
            r == self@.extensions.contains(extension@),
    {
        self.supported_extensions.contains(extension)
    }

    /// What brotli is told of the content of a file of an extension.
    pub fn detect_brotli_mode(&self, extension: &str) -> (r: BrotliMode)
        ensures
            r == mode_of(self@, extension@),
    {
        match self.supported_extensions.contains(extension) {
            true => BrotliMode::Text,
            false => BrotliMode::Generic,
        }
    }
}

/// What brotli is told of the content of a file of an extension.
pub open spec fn mode_of(state: CacheState, extension: Seq<char>) -> BrotliMode {
    if state.extensions.contains(extension) {
        BrotliMode::Text
    } else {
        BrotliMode::Generic
    }
}

/// What is asked of the cache: the path of a file, and its extension.
pub struct Request {
    /// The path.
    pub path: PathBuf,
    /// The extension of the file; empty where it has none.
    pub extension: String,
}

/// What is to be done next for a request.
pub enum Step {
    /// Open the original file; `wrap_orig` takes it from there.
    OpenOriginal,
    /// Find out what identifies the original file; `examined` takes it from there.
    Examine,
    /// Compress the original file, which this identifies; `compressed` takes it from there.
    Compress(FileInfo, CompressionParams),
    /// Nothing: this file answers the request.
    Done(MatchedFile),
}

/// A compressed copy of a file.
pub struct Compressed {
    /// The number under which the open copy is kept.
    pub handle: u64,
    /// The length of the copy in bytes.
    pub len: u64,
    /// When the copy was written.
    pub mtime: SystemTime,
}

/// Why a file could not be compressed.
pub enum CompressFailure<E> {
    /// There was no room for the copy.
    StorageFull,
    /// Something else went wrong.
    Other(E),
}

/// A request failed: what went wrong, in words, and what caused it.
pub struct CompressionError<E> {
    /// What went wrong.
    pub message: String,
    /// What caused it.
    pub cause: E,
}

/// The size to tell brotli of: that of the file, where it is a number of the machine's.
pub open spec fn hint_for(len: u64) -> usize {
    if len <= usize::MAX {
        len as usize
    } else {
        0
    }
}

/// How a file is compressed.
pub open spec fn params_for(
    state: CacheState,
    extension: Seq<char>,
    info: FileInfo,
) -> CompressionParams {
    CompressionParams {
        quality: state.quality,
        mode: mode_of(state, extension),
        size_hint: hint_for(info.len),
    }
}

/// What is done once it is known what identifies the file.
pub open spec fn after_examining(state: CacheState, extension: Seq<char>, info: FileInfo) -> Step {
    if info.len > state.max_file_size {
        Step::OpenOriginal
    } else if state.files.contains_key(info) {
        Step::Done(state.files[info])
    } else {
        Step::Compress(info, params_for(state, extension, info))
    }
}

/// `file` is the compressed copy `copy` of the file that `info` identifies.
pub open spec fn is_compressed_copy(
    file: MatchedFile,
    extension: Seq<char>,
    info: FileInfo,
    copy: Compressed,
) -> bool {
    &&& file.handle == copy.handle
    &&& file.file_info == (FileInfo {
        path_hash: reversed_bytes(info.path_hash),
        len: copy.len,
        mtime: copy.mtime,
    })
    &&& file.content_encoding == ContentEncoding::Brotli
    &&& file.extension@ == extension
}

/// The larger half of the files was put out.
pub open spec fn is_pruned(
    after: Map<FileInfo, MatchedFile>,
    before: Map<FileInfo, MatchedFile>,
) -> bool {
    exists|kept: Set<FileInfo>| #[trigger]
        is_smaller_half(kept, before) && after == before.restrict(kept)
}

/// What a cache holds after a file was cached: the file, and nothing else that is new; and where
/// its parts were within their bounds, what `inserted` says of those that go.
pub open spec fn took_file(
    after: Map<FileInfo, MatchedFile>,
    before: CacheState,
    key: FileInfo,
    file: MatchedFile,
) -> bool {
    &&& after.contains_pair(key, file)
    &&& part_of(after, before.files.insert(key, file))
    &&& before.in_bounds() ==> inserted(
        after,
        before.files,
        before.parts,
        before.capacity,
        before.max_total_weight,
        key,
        file,
    )
}

/// What comes of compressing a file, and what it makes of the cache.
pub open spec fn after_compressing<E>(
    before: CacheState,
    after: CacheState,
    request: Request,
    info: FileInfo,
    outcome: Result<Compressed, CompressFailure<E>>,
    r: Result<Step, CompressionError<E>>,
) -> bool {
    &&& after == (CacheState { files: after.files, ..before })
    &&& match outcome {
        Ok(copy) => {
            &&& r matches Ok(Step::Done(file))
            &&& is_compressed_copy(file, request.extension@, info, copy)
            &&& took_file(after.files, before, info, file)
        },
        Err(CompressFailure::StorageFull) => {
            &&& r matches Ok(step)
            &&& step == Step::OpenOriginal
            &&& is_pruned(after.files, before.files)
        },
        Err(CompressFailure::Other(e)) => {
            &&& r matches Err(error)
            &&& error.cause == e
            &&& error.message@ == "Brotli compression failed for "@ + displayed(
                path_bytes(request.path),
            )
            &&& after.files == before.files
        },
    }
}

impl BrotliCache {
    /// Starts to answer a request for a path. File types that are already compressed are not
    /// compressed again: the original is served.
    ///
    /// If a cached copy already exists for the given file, it will be reused. Otherwise, the file
    /// will be compressed and the copy will be cached.
    pub fn get(&self, path: PathBuf) -> (r: (Request, Step))
        ensures
            r.0.path == path,
            r.0.extension@ == extension_of(path_bytes(path)),
            r.1 == (if self@.extensions.contains(extension_of(path_bytes(path))) {
                Step::Examine
            } else {
                Step::OpenOriginal
            }),
    {
        let extension = match path_extension(&path) {
            Some(text) => text,
            None => String::new(),
        };
        assert(extension@ =~= extension_of(path_bytes(path)));
        let step = if self.supported_extensions.contains(extension.as_str()) {
            Step::Examine
        } else {
            Step::OpenOriginal
        };
        (Request { path, extension }, step)
    }

    /// Goes on once it is known what identifies the original file. One that is too large is served
    /// as it is; one that has a cached copy is answered with the copy; any other is compressed.
    pub fn examined(&self, request: &Request, info: FileInfo) -> (r: Step)
        ensures
            r == after_examining(self@, request.extension@, info),
    {
        if info.len() > self.max_file_size {
            return Step::OpenOriginal;
        }
        if let Some(file) = get_file(&self.files, &info) {
            return Step::Done(file);
        }
        let size_hint = if info.len() <= usize::MAX as u64 {
            info.len() as usize
        } else {
            0
        };
        Step::Compress(
            info,
            CompressionParams {
                quality: self.quality,
                mode: self.detect_brotli_mode(request.extension.as_str()),
                size_hint,
            },
        )
    }

    /// Goes on once the original file was compressed, or could not be. The copy is cached. Where
    /// there was no room for it, the larger half of the cached files is put out, and the original
    /// is served.
    pub fn compressed<E>(
        &mut self,
        request: &Request,
        info: FileInfo,
        outcome: Result<Compressed, CompressFailure<E>>,
    ) -> (r: Result<Step, CompressionError<E>>)
        requires
            old(self).wf(),
        ensures
            final(self).wf(),
            within(final(self)@.files, final(self)@.capacity),
            final(self).weighs_exactly() ==> final(self)@.in_bounds(),
            old(self).weighs_exactly() && (outcome matches Ok(copy) ==> copy.len <= usize::MAX / 2)
                ==> final(self).weighs_exactly(),
            after_compressing(old(self)@, final(self)@, *request, info, outcome, r),
    {
        match outcome {
            Ok(copy) => {
                // The cached copy literally doesn't have a filename, so a path hash cannot be
                // calculated for it. Instead, the bytes of the original file's path hash are
                // reversed to create a pseudo path hash that is deterministic in the same ways as
                // the original path hash, and just as unlikely to collide with any other value.
                let file_info = FileInfo {
                    path_hash: info.get_hash().swap_bytes(),
                    len: copy.len,
                    mtime: copy.mtime,
                };
                let file = MatchedFile {
                    handle: copy.handle,
                    file_info,
                    content_encoding: ContentEncoding::Brotli,
                    extension: request.extension.clone(),
                };
                self.insert(info, file.clone());
                proof {
                    lemma_counted_within(self@.files, self@.parts, self@.capacity);
                }
                Ok(Step::Done(file))
            },
            Err(CompressFailure::StorageFull) => {
                self.prune_cache();
                Ok(Step::OpenOriginal)
            },
            Err(CompressFailure::Other(cause)) => {
                let shown = display_path(&request.path);
                let mut message = String::from_str("Brotli compression failed for ");
                message.append(shown.as_str());
                proof {
                    lemma_counted_within(self@.files, self@.parts, self@.capacity);
                }
                Err(CompressionError { message, cause })
            },
        }
    }

    /// Answers a request with the original file.
    ///
    /// Used when skipping compression.
    pub fn wrap_orig(request: &Request, handle: u64, file_info: FileInfo) -> (r: MatchedFile)
        ensures
            r.handle == handle,
            r.file_info == file_info,
            r.content_encoding == ContentEncoding::Identity,
            r.extension@ == request.extension@,
    {
        MatchedFile {
            handle,
            file_info,
            content_encoding: ContentEncoding::Identity,
            extension: request.extension.clone(),
        }
    }

    /// Evicts the largest half of cached files, allowing that disk space to be reclaimed.
    pub fn prune_cache(&mut self)
        requires
            old(self).wf(),
        ensures
            final(self).wf(),
            within(final(self)@.files, final(self)@.capacity),
            final(self).weighs_exactly() == old(self).weighs_exactly(),
            final(self).weighs_exactly() ==> final(self)@.in_bounds(),
            final(self)@ == (CacheState { files: final(self)@.files, ..old(self)@ }),
            is_pruned(final(self)@.files, old(self)@.files),
    {
        let entries = list_files(&self.files);
        let kept = smaller_half(&entries, Ghost(cached_files(self.files)));
        retain_files(&mut self.files, &kept);
        self.stale = true;
        assert(is_smaller_half(kept@.to_set(), old(self)@.files));
        assert(is_pruned(self@.files, old(self)@.files));
        proof {
            lemma_part_fits(
                self@.files,
                old(self)@.files,
                self@.parts,
                self@.capacity,
                self@.max_total_weight,
            );
            lemma_counted_within(self@.files, self@.parts, self@.capacity);
        }
    }

    /// Lists the numbers under which the cached files are kept.
    pub fn handles(&self) -> (r: Vec<u64>)
        ensures
            forall|handle: u64| #[trigger]
                r@.contains(handle) <==> exists|key: FileInfo| #[trigger]
                    self@.files.contains_key(key) && self@.files[key].handle == handle,
    {
        let entries = list_files(&self.files);
        let mut handles: Vec<u64> = Vec::new();
        let mut i: usize = 0;
        while i < entries.len()
            invariant
                i <= entries@.len(),
                handles@.len() == i,
                forall|j: int| 0 <= j < i ==> #[trigger] handles@[j] == entries@[j].1.handle,
            decreases entries@.len() - i,
        {
            handles.push(entries[i].1.handle);
            i = i + 1;
        }
        proof {
            let files = self@.files;
            assert forall|handle: u64| #[trigger]
                handles@.contains(handle) == exists|key: FileInfo| #[trigger]
                    files.contains_key(key) && files[key].handle == handle by {
                if handles@.contains(handle) {
                    let j = choose|j: int| 0 <= j < handles@.len() && handles@[j] == handle;
                    assert(files.contains_pair(entries@[j].0, entries@[j].1));
                }
                if exists|key: FileInfo| #[trigger]
                    files.contains_key(key) && files[key].handle == handle {
                    let key = choose|key: FileInfo| #[trigger]
                        files.contains_key(key) && files[key].handle == handle;
                    let j = choose|j: int|
                        0 <= j < entries@.len() && (#[trigger] entries@[j]).0 == key;
                    assert(files.contains_pair(entries@[j].0, entries@[j].1));
                    assert(handles@[j] == handle);
                }
            }
        }
        handles
    }

    /// Caches a file.
    fn insert(&mut self, key: FileInfo, file: MatchedFile)
        requires
            old(self).wf(),
        ensures
            final(self).wf(),
            final(self).weighs_exactly() ==> final(self)@.in_bounds(),
            old(self).weighs_exactly() && file.file_info.len <= usize::MAX / 2
                ==> final(self).weighs_exactly(),
            final(self)@ == (CacheState { files: final(self)@.files, ..old(self)@ }),
            took_file(final(self)@.files, old(self)@, key, file),
    {
        let ghost before = self@;
        if self.stale {
            self.refill(key);
        }
        let ghost between = self@.files;
        insert_file(&mut self.files, key, file);
        proof {
            if before.in_bounds() && between == before.files.remove(key) {
                lemma_inserted_anew(
                    self@.files,
                    before.files,
                    before.parts,
                    before.capacity,
                    before.max_total_weight,
                    key,
                    file,
                );
            }
        }
    }

    /// Takes all files out and puts them in again, but for one that is to be replaced, so that the
    /// cache can put files out. The marks of which files were used start anew.
    fn refill(&mut self, replaced: FileInfo)
        requires
            old(self).wf(),
        ensures
            final(self).wf(),
            !final(self).stale,
            old(self).weighs_exactly() ==> final(self).weighs_exactly(),
            final(self)@ == (CacheState { files: final(self)@.files, ..old(self)@ }),
            part_of(final(self)@.files, old(self)@.files.remove(replaced)),
            old(self)@.in_bounds() ==> final(self)@.files == old(self)@.files.remove(replaced),
    {
        let ghost files = self@.files.remove(replaced);
        let ghost whole = self@;
        let entries = list_files(&self.files);
        clear_files(&mut self.files);
        proof {
            lemma_nothing_fits(self@.parts, self@.capacity, self@.max_total_weight);
        }
        let mut i: usize = 0;
        while i < entries.len()
            invariant
                i <= entries@.len(),
                old(self).wf(),
                whole == old(self)@,
                lists_all(entries@, whole.files),
                files == whole.files.remove(replaced),
                can_evict(self.files),
                old(self).weighs_exactly() ==> self.weighs_exactly(),
                counted(self@.files, self@.parts, self@.capacity),
                self.weighs_exactly() ==> self@.in_bounds() && all_short(self@.files),
                self@ == (CacheState { files: self@.files, ..whole }),
                part_of(self@.files, files),
                forall|key: FileInfo| #[trigger]
                    self@.files.contains_key(key) ==> exists|j: int|
                        0 <= j < i && (#[trigger] entries@[j]).0 == key,
                whole.in_bounds() ==> forall|j: int|
                    0 <= j < i && (#[trigger] entries@[j]).0 != replaced
                        ==> self@.files.contains_key(entries@[j].0),
            decreases entries@.len() - i,
        {
            let key = entries[i].0;
            let file = entries[i].1.clone();
            assert(whole.files.contains_pair(entries@[i as int].0, entries@[i as int].1));
            if key != replaced {
                let ghost before = self@.files;
                assert(!before.contains_key(key));
                insert_file(&mut self.files, key, file);
                proof {
                    if whole.in_bounds() {
                        lemma_nothing_lost(self@.files, before, whole, key, file);
                    }
                }
            }
            i = i + 1;
        }
        self.stale = false;
        proof {
            if whole.in_bounds() {
                assert forall|key: FileInfo| #[trigger] files.contains_key(key) implies self@.files
                    .contains_key(key) by {
                    assert(whole.files.contains_key(key));
                }
                assert(self@.files =~= files);
            }
        }
    }
}

/// An empty cache is within its bounds.
proof fn lemma_nothing_fits(parts: Map<FileInfo, int>, entry_limit: int, weight_limit: int)
    requires
        entry_limit >= 0,
    ensures
        fits(no_files(), parts, entry_limit, weight_limit),
{
    assert forall|part: int| 0 <= part < 16 implies (#[trigger] in_part(
        no_files(),
        parts,
        part,
    )).dom().len() == 0 by {
        assert(in_part(no_files(), parts, part).dom() =~= Set::empty());
    }
}

/// Fewer files in a cache are fewer in each part.
proof fn lemma_less_in_part(
    after: Map<FileInfo, MatchedFile>,
    before: Map<FileInfo, MatchedFile>,
    parts: Map<FileInfo, int>,
    part: int,
)
    requires
        before.dom().finite(),
        part_of(after, before),
    ensures
        in_part(before, parts, part).dom().finite(),
        part_of(in_part(after, parts, part), in_part(before, parts, part)),
        in_part(after, parts, part).dom().len() <= in_part(before, parts, part).dom().len(),
        total_len(in_part(after, parts, part)) <= total_len(in_part(before, parts, part)),
{
    let a = in_part(after, parts, part);
    let b = in_part(before, parts, part);
    vstd::set_lib::lemma_len_subset(b.dom(), before.dom());
    assert forall|key: FileInfo| #[trigger] a.contains_key(key) implies b.contains_pair(
        key,
        a[key],
    ) by {
        assert(after.contains_key(key));
    }
    assert(a.dom().subset_of(b.dom()));
    vstd::set_lib::lemma_len_subset(a.dom(), b.dom());
    lemma_total_part(a, b);
}

/// Fewer files stay within the bounds.
proof fn lemma_part_fits(
    after: Map<FileInfo, MatchedFile>,
    before: Map<FileInfo, MatchedFile>,
    parts: Map<FileInfo, int>,
    entry_limit: int,
    weight_limit: int,
)
    requires
        part_of(after, before),
        counted(before, parts, entry_limit),
    ensures
        counted(after, parts, entry_limit),
        fits(before, parts, entry_limit, weight_limit) ==> fits(
            after,
            parts,
            entry_limit,
            weight_limit,
        ),
        all_short(before) ==> all_short(after),
{
    assert(after.dom().subset_of(before.dom()));
    vstd::set_lib::lemma_len_subset(after.dom(), before.dom());
    assert forall|part: int| 0 <= part < 16 implies {
        &&& (#[trigger] in_part(after, parts, part)).dom().len() <= share(entry_limit, part)
        &&& fits(before, parts, entry_limit, weight_limit) ==> in_part(
            after,
            parts,
            part,
        ).dom().len() <= 1 || total_len(in_part(after, parts, part)) <= share(weight_limit, part)
    } by {
        lemma_less_in_part(after, before, parts, part);
        assert(in_part(before, parts, part).dom().len() <= share(entry_limit, part));
    }
    assert forall|key: FileInfo| all_short(before) && #[trigger] after.contains_key(
        key,
    ) implies after[key].file_info.len <= usize::MAX / 2 by {
        assert(before.contains_pair(key, after[key]));
        assert(before.contains_key(key));
    }
}

/// Putting in a file of a cache that is within its bounds, next to others of that cache, loses
/// nothing.
proof fn lemma_nothing_lost(
    after: Map<FileInfo, MatchedFile>,
    before: Map<FileInfo, MatchedFile>,
    whole: CacheState,
    key: FileInfo,
    file: MatchedFile,
)
    requires
        whole.in_bounds(),
        sixteen(whole.parts),
        part_of(before, whole.files),
        whole.files.contains_pair(key, file),
        !before.contains_key(key),
        inserted(
            after,
            before,
            whole.parts,
            whole.capacity,
            whole.max_total_weight,
            key,
            file,
        ),
    ensures
        after == before.insert(key, file),
{
    let part = whole.parts[key];
    let all = in_part(whole.files, whole.parts, part);
    lemma_less_in_part(before, whole.files, whole.parts, part);
    assert(all.dom().len() <= share(whole.capacity, part));
    assert(all.dom().contains(key));
    let held = in_part(before, whole.parts, part);
    assert(held.dom().subset_of(all.dom().remove(key)));
    vstd::set_lib::lemma_len_subset(held.dom(), all.dom().remove(key));
    assert(!is_full(before, whole.parts, whole.capacity, part));
    if was_too_heavy(after, before, whole.parts, whole.max_total_weight, part) {
        let out = choose|out: FileInfo|
            {
                &&& #[trigger] before.contains_key(out)
                &&& !after.contains_key(out)
                &&& whole.parts[out] == part
                &&& total_len(in_part(after, whole.parts, part).insert(out, before[out])) > share(
                    whole.max_total_weight,
                    part,
                )
            };
        let more = in_part(after, whole.parts, part).insert(out, before[out]);
        assert forall|k: FileInfo| #[trigger] more.contains_key(k) implies all.contains_pair(
            k,
            more[k],
        ) by {
            if k != out {
                assert(after.contains_key(k));
                assert(before.insert(key, file).contains_pair(k, after[k]));
                if k != key {
                    assert(before.contains_key(k));
                    assert(whole.files.contains_pair(k, before[k]));
                }
            } else {
                assert(whole.files.contains_pair(out, before[out]));
            }
        }
        lemma_total_part(more, all);
        assert(all.dom().contains(out) && out != key);
        let two = set![key, out];
        assert(two.subset_of(all.dom()));
        vstd::set_lib::lemma_len_subset(two, all.dom());
        assert(two.len() == 2);
        assert(false);
    }
}

/// Taking out the file that is replaced, before, changes nothing of what is said of the others.
proof fn lemma_inserted_anew(
    after: Map<FileInfo, MatchedFile>,
    before: Map<FileInfo, MatchedFile>,
    parts: Map<FileInfo, int>,
    entry_limit: int,
    weight_limit: int,
    key: FileInfo,
    file: MatchedFile,
)
    requires
        sixteen(parts),
        counted(before, parts, entry_limit),
        inserted(after, before.remove(key), parts, entry_limit, weight_limit, key, file),
    ensures
        inserted(after, before, parts, entry_limit, weight_limit, key, file),
{
    let rest = before.remove(key);
    let part = parts[key];
    assert(rest.insert(key, file) =~= before.insert(key, file));
    assert forall|other: FileInfo| #[trigger]
        before.contains_key(other) && parts[other] != part implies after.contains_key(other) by {
        assert(rest.contains_key(other));
    }
    lemma_less_in_part(before, before, parts, part);
    if before.contains_key(key) {
        assert(in_part(rest, parts, part).dom() =~= in_part(before, parts, part).dom().remove(key));
        assert(in_part(before, parts, part).dom().contains(key));
        assert(in_part(before, parts, part).dom().len() <= share(entry_limit, part));
        assert(!is_full(rest, parts, entry_limit, part));
    } else {
        assert(rest =~= before);
    }
    if was_too_heavy(after, rest, parts, weight_limit, part) {
        let out = choose|out: FileInfo|
            {
                &&& #[trigger] rest.contains_key(out)
                &&& !after.contains_key(out)
                &&& parts[out] == part
                &&& total_len(in_part(after, parts, part).insert(out, rest[out])) > share(
                    weight_limit,
                    part,
                )
            };
        assert(before.contains_key(out));
    }
}

/// The files whose keys fall into the first parts.
spec fn in_first_parts(
    files: Map<FileInfo, MatchedFile>,
    parts: Map<FileInfo, int>,
    n: int,
) -> Map<FileInfo, MatchedFile> {
    Map::new(
        |key: FileInfo| files.contains_key(key) && parts[key] < n,
        |key: FileInfo| files[key],
    )
}

/// The shares of the first parts.
spec fn shares(limit: int, n: int) -> int
    decreases n,
{
    if n <= 0 {
        0
    } else {
        shares(limit, n - 1) + share(limit, n - 1)
    }
}

/// The shares of all parts make up the limit.
proof fn lemma_shares(limit: int)
    requires
        limit >= 0,
    ensures
        shares(limit, 16) == limit,
{
    reveal_with_fuel(shares, 17);
}

/// One more part has its files more.
proof fn lemma_next_part(files: Map<FileInfo, MatchedFile>, parts: Map<FileInfo, int>, n: int)
    requires
        files.dom().finite(),
    ensures
        in_first_parts(files, parts, n).dom().finite(),
        in_first_parts(files, parts, n + 1).dom().len() == in_first_parts(
            files,
            parts,
            n,
        ).dom().len() + in_part(files, parts, n).dom().len(),
        total_len(in_first_parts(files, parts, n + 1)) == total_len(
            in_first_parts(files, parts, n),
        ) + total_len(in_part(files, parts, n)),
{
    let a = in_first_parts(files, parts, n);
    let b = in_part(files, parts, n);
    let c = in_first_parts(files, parts, n + 1);
    vstd::set_lib::lemma_len_subset(a.dom(), files.dom());
    vstd::set_lib::lemma_len_subset(b.dom(), files.dom());
    vstd::set_lib::lemma_len_subset(c.dom(), files.dom());
    assert(c.dom() =~= a.dom().union(b.dom()));
    vstd::set_lib::lemma_set_disjoint_lens(a.dom(), b.dom());
    lemma_total_join(c, a, b);
}

/// The total length of two maps without a key in common.
proof fn lemma_total_join(
    all: Map<FileInfo, MatchedFile>,
    a: Map<FileInfo, MatchedFile>,
    b: Map<FileInfo, MatchedFile>,
)
    requires
        all.dom().finite(),
        part_of(a, all),
        part_of(b, all),
        forall|key: FileInfo| #[trigger]
            all.contains_key(key) ==> a.contains_key(key) != b.contains_key(key),
    ensures
        total_len(all) == total_len(a) + total_len(b),
    decreases all.dom().len(),
{
    lemma_total_part(a, all);
    lemma_total_part(b, all);
    if all.dom().len() > 0 {
        let key = all.dom().choose();
        assert(all.contains_key(key));
        let fewer = all.remove(key);
        assert forall|k: FileInfo| #[trigger] fewer.contains_key(k) implies a.remove(
            key,
        ).contains_key(k) != b.remove(key).contains_key(k) by {
            assert(all.contains_key(k));
        }
        assert forall|k: FileInfo| #[trigger] a.remove(key).contains_key(
            k,
        ) implies fewer.contains_pair(k, a.remove(key)[k]) by {
            assert(a.contains_key(k));
        }
        assert forall|k: FileInfo| #[trigger] b.remove(key).contains_key(
            k,
        ) implies fewer.contains_pair(k, b.remove(key)[k]) by {
            assert(b.contains_key(k));
        }
        lemma_total_join(fewer, a.remove(key), b.remove(key));
        if a.contains_key(key) {
            assert(all.contains_pair(key, a[key]));
            lemma_total_remove(a, key);
            assert(b.remove(key) =~= b);
        } else {
            assert(all.contains_pair(key, b[key]));
            lemma_total_remove(b, key);
            assert(a.remove(key) =~= a);
        }
    } else {
        assert(a.dom() =~= Set::empty());
        assert(b.dom() =~= Set::empty());
    }
}

/// The first parts hold no more files than their shares.
proof fn lemma_first_counts(
    files: Map<FileInfo, MatchedFile>,
    parts: Map<FileInfo, int>,
    entry_limit: int,
    n: int,
)
    requires
        sixteen(parts),
        counted(files, parts, entry_limit),
        0 <= n <= 16,
    ensures
        in_first_parts(files, parts, n).dom().len() <= shares(entry_limit, n),
    decreases n,
{
    if n > 0 {
        lemma_first_counts(files, parts, entry_limit, n - 1);
        lemma_next_part(files, parts, n - 1);
        assert(in_part(files, parts, n - 1).dom().len() <= share(entry_limit, n - 1));
    } else {
        assert(in_first_parts(files, parts, n).dom() =~= Set::empty());
    }
}

/// A cache whose parts keep to their shares of the number holds no more files than its limit.
pub proof fn lemma_counted_within(
    files: Map<FileInfo, MatchedFile>,
    parts: Map<FileInfo, int>,
    entry_limit: int,
)
    requires
        sixteen(parts),
        counted(files, parts, entry_limit),
        entry_limit >= 0,
    ensures
        within(files, entry_limit),
{
    lemma_first_counts(files, parts, entry_limit, 16);
    lemma_shares(entry_limit);
    assert(in_first_parts(files, parts, 16).dom() =~= files.dom());
}

/// The first parts are no heavier than their shares.
proof fn lemma_first_weights(state: CacheState, n: int)
    requires
        sixteen(state.parts),
        state.in_bounds(),
        state.max_total_weight >= 0,
        0 <= n <= 16,
        forall|key: FileInfo| #[trigger]
            state.files.contains_key(key) ==> state.files[key].file_info.len
                <= state.max_total_weight / 16,
    ensures
        total_len(in_first_parts(state.files, state.parts, n)) <= shares(
            state.max_total_weight,
            n,
        ),
    decreases n,
{
    if n > 0 {
        lemma_first_weights(state, n - 1);
        lemma_next_part(state.files, state.parts, n - 1);
        lemma_less_in_part(state.files, state.files, state.parts, n - 1);
        let part = in_part(state.files, state.parts, n - 1);
        if part.dom().len() == 1 {
            let key = part.dom().choose();
            assert(part.contains_key(key));
            assert(state.files.contains_key(key));
            assert(part.remove(key).dom().len() == 0);
            assert(total_len(part) == part[key].file_info.len + total_len(part.remove(key)));
        }
    } else {
        assert(in_first_parts(state.files, state.parts, n).dom() =~= Set::empty());
    }
}

/// What is cached weighs no more than the limit, where no file is heavier than a sixteenth of it.
pub proof fn lemma_total_weight(state: CacheState)
    requires
        sixteen(state.parts),
        state.in_bounds(),
        state.max_total_weight >= 0,
        forall|key: FileInfo| #[trigger]
            state.files.contains_key(key) ==> state.files[key].file_info.len
                <= state.max_total_weight / 16,
    ensures
        total_len(state.files) <= state.max_total_weight,
{
    lemma_first_weights(state, 16);
    lemma_shares(state.max_total_weight);
    assert(in_first_parts(state.files, state.parts, 16) =~= state.files);
}

/// The total length is that of any one file and that of the others.
proof fn lemma_total_remove(files: Map<FileInfo, MatchedFile>, key: FileInfo)
    requires
        files.dom().finite(),
        files.contains_key(key),
    ensures
        total_len(files) == files[key].file_info.len + total_len(files.remove(key)),
    decreases files.dom().len(),
{
    let first = files.dom().choose();
    if first != key {
        lemma_total_remove(files.remove(first), key);
        lemma_total_remove(files.remove(key), first);
        assert(files.remove(first).remove(key) =~= files.remove(key).remove(first));
    }
}

/// Fewer files are no longer together.
proof fn lemma_total_part(
    part: Map<FileInfo, MatchedFile>,
    files: Map<FileInfo, MatchedFile>,
)
    requires
        files.dom().finite(),
        part_of(part, files),
    ensures
        part.dom().finite(),
        0 <= total_len(part) <= total_len(files),
    decreases files.dom().len(),
{
    assert(part.dom().subset_of(files.dom()));
    vstd::set_lib::lemma_set_subset_finite(files.dom(), part.dom());
    if files.dom().len() > 0 {
        let key = files.dom().choose();
        if part.contains_key(key) {
            assert(files.contains_pair(key, part[key]));
            lemma_total_remove(part, key);
        } else {
            assert(part.remove(key) =~= part);
        }
        assert forall|k: FileInfo| #[trigger]
            part.remove(key).contains_key(k) implies files.remove(key).contains_pair(
            k,
            part.remove(key)[k],
        ) by {
            assert(part.contains_key(k));
        }
        lemma_total_part(part.remove(key), files.remove(key));
    } else {
        assert(part.dom() =~= Set::empty());
    }
}

/// A file that was compressed is answered with its copy when it is asked for again, unchanged, and
/// the copy was not put out in between: the state has the copy, and a file of that size is examined
/// for it.
pub proof fn lemma_copy_is_reused(
    before: CacheState,
    after: CacheState,
    extension: Seq<char>,
    info: FileInfo,
    file: MatchedFile,
)
    requires
        after_examining(before, extension, info) is Compress,
        after == (CacheState { files: after.files, ..before }),
        after.files.contains_pair(info, file),
    ensures
        after_examining(after, extension, info) == Step::Done(file),
{
}

/// A copy is reused after another file was cached whose key falls into another part of the cache,
/// or into one that has room for both.
pub proof fn lemma_copy_stays(
    before: CacheState,
    after: CacheState,
    extension: Seq<char>,
    info: FileInfo,
    copy: MatchedFile,
    key: FileInfo,
    file: MatchedFile,
)
    requires
        before.in_bounds(),
        before.files.contains_pair(info, copy),
        info.len <= before.max_file_size,
        key != info,
        before.parts[info] != before.parts[key] || ({
            &&& before.files.contains_key(key) || !is_full(
                before.files,
                before.parts,
                before.capacity,
                before.parts[key],
            )
            &&& total_len(
                in_part(before.files, before.parts, before.parts[key]).insert(key, file),
            ) <= share(before.max_total_weight, before.parts[key])
        }),
        after == (CacheState { files: after.files, ..before }),
        took_file(after.files, before, key, file),
    ensures
        after_examining(after, extension, info) == Step::Done(copy),
{
    let part = before.parts[key];
    if before.parts[info] == part && was_too_heavy(
        after.files,
        before.files,
        before.parts,
        before.max_total_weight,
        part,
    ) {
        let out = choose|out: FileInfo|
            {
                &&& #[trigger] before.files.contains_key(out)
                &&& !after.files.contains_key(out)
                &&& before.parts[out] == part
                &&& total_len(
                    in_part(after.files, before.parts, part).insert(out, before.files[out]),
                ) > share(before.max_total_weight, part)
            };
        let more = in_part(after.files, before.parts, part).insert(out, before.files[out]);
        let all = in_part(before.files, before.parts, part).insert(key, file);
        lemma_less_in_part(before.files, before.files, before.parts, part);
        assert forall|k: FileInfo| #[trigger] more.contains_key(k) implies all.contains_pair(
            k,
            more[k],
        ) by {
            if k != out {
                assert(after.files.contains_key(k));
                assert(before.files.insert(key, file).contains_pair(k, after.files[k]));
            }
        }
        lemma_total_part(more, all);
    }
    assert(before.files.contains_key(info));
    if after.files.contains_key(info) {
        assert(before.files.insert(key, file).contains_pair(info, after.files[info]));
    }
}

/// Pruning leaves half of the files, rounded down, and changes none of those it leaves; none of
/// them is larger than one that it puts out.
pub proof fn lemma_prune_halves(
    after: Map<FileInfo, MatchedFile>,
    before: Map<FileInfo, MatchedFile>,
    left: FileInfo,
    out: FileInfo,
)
    requires
        is_pruned(after, before),
    ensures
        after.dom().len() == before.dom().len() / 2,
        part_of(after, before),
        after.contains_key(left) && before.contains_key(out) && !after.contains_key(out)
            ==> after[left].file_info.len <= before[out].file_info.len,
{
    let kept = choose|kept: Set<FileInfo>| #[trigger]
        is_smaller_half(kept, before) && after == before.restrict(kept);
    assert(after.dom() =~= kept);
}

/// Only files that are not too large are compressed, and those of a supported extension as text.
pub proof fn lemma_what_is_compressed(state: CacheState, extension: Seq<char>, info: FileInfo)
    ensures
        after_examining(state, extension, info) matches Step::Compress(of, params) ==> {
            &&& of == info
            &&& info.len <= state.max_file_size
            &&& !state.files.contains_key(info)
            &&& params.quality == state.quality
            &&& state.extensions.contains(extension) ==> params.mode == BrotliMode::Text
        },
{
}

/// Every cached file is a brotli copy, under the pseudo path hash, of the file it is cached for.
pub open spec fn holds_copies(files: Map<FileInfo, MatchedFile>) -> bool {
    forall|key: FileInfo| #[trigger]
        files.contains_key(key) ==> files[key].content_encoding == ContentEncoding::Brotli
            && files[key].file_info.path_hash == reversed_bytes(key.path_hash)
}

/// The cache holds brotli copies only: it starts so, and neither caching a copy nor pruning changes
/// it.
pub proof fn lemma_cache_holds_copies(
    before: Map<FileInfo, MatchedFile>,
    after: Map<FileInfo, MatchedFile>,
    extension: Seq<char>,
    info: FileInfo,
    copy: Compressed,
    file: MatchedFile,
)
    requires
        holds_copies(before),
    ensures
        holds_copies(no_files()),
        is_compressed_copy(file, extension, info, copy) && part_of(after, before.insert(info, file))
            ==> holds_copies(after),
        is_pruned(after, before) ==> holds_copies(after),
{
    if is_compressed_copy(file, extension, info, copy) && part_of(
        after,
        before.insert(info, file),
    ) {
        assert forall|key: FileInfo| #[trigger]
            after.contains_key(key) implies after[key].content_encoding == ContentEncoding::Brotli
            && after[key].file_info.path_hash == reversed_bytes(key.path_hash) by {
            assert(before.insert(info, file).contains_pair(key, after[key]));
            if key != info {
                assert(before.contains_key(key));
            }
        }
    }
    if is_pruned(after, before) {
        lemma_prune_halves(after, before, info, info);
        assert forall|key: FileInfo| #[trigger]
            after.contains_key(key) implies after[key].content_encoding == ContentEncoding::Brotli
            && after[key].file_info.path_hash == reversed_bytes(key.path_hash) by {
            assert(before.contains_pair(key, after[key]));
            assert(before.contains_key(key));
        }
    }
}

/// Whether a file is looked at for compression depends on its extension alone; one that is not is
/// served as it is.
pub proof fn lemma_first_step(cache: &BrotliCache, path: PathBuf, r: (Request, Step), listed: bool)
    requires
        call_ensures(BrotliCache::get, (cache, path), r),
        listed == cache@.extensions.contains(extension_of(path_bytes(path))),
    ensures
        r.0.path == path,
        r.0.extension@ == extension_of(path_bytes(path)),
        r.1 is Examine <==> listed,
        r.1 is OpenOriginal <==> !listed,
{
}

/// The next step for every file: it is served as it is exactly where it is longer than what is
/// compressed at most; any other is answered with its cached copy where there is one, and
/// compressed where there is none, with the configured quality, as text where its extension is
/// listed, and with its length for a hint.
pub proof fn lemma_next_step(cache: &BrotliCache, request: &Request, info: FileInfo, r: Step)
    requires
        call_ensures(BrotliCache::examined, (cache, request, info), r),
    ensures
        r is OpenOriginal <==> info.len > cache@.max_file_size,
        r is Done <==> info.len <= cache@.max_file_size && cache@.files.contains_key(info),
        r is Compress <==> info.len <= cache@.max_file_size && !cache@.files.contains_key(info),
        !(r is Examine),
        r matches Step::Done(file) ==> cache@.files.contains_pair(info, file),
        r matches Step::Compress(of, params) ==> {
            &&& of == info
            &&& params.quality == cache@.quality
            &&& params.mode == BrotliMode::Text <==> cache@.extensions.contains(request.extension@)
            &&& info.len <= usize::MAX ==> params.size_hint == info.len
            &&& info.len > usize::MAX ==> params.size_hint == 0
        },
{
}

/// Once a file was compressed, the same file is answered with that very copy, and the copy is what
/// was handed in: its length, its time, its number, stored with brotli, under the reversed hash of
/// the file's path.
pub proof fn lemma_copy_is_handed_out<E>(
    before: CacheState,
    after: CacheState,
    request: Request,
    info: FileInfo,
    copy: Compressed,
    r: Result<Step, CompressionError<E>>,
    extension: Seq<char>,
)
    requires
        after_compressing(before, after, request, info, Ok(copy), r),
        info.len <= before.max_file_size,
    ensures
        r matches Ok(Step::Done(file)) && {
            &&& after_examining(after, extension, info) == Step::Done(file)
            &&& file.handle == copy.handle
            &&& file.file_info.len == copy.len
            &&& file.file_info.mtime == copy.mtime
            &&& reversed_bytes(file.file_info.path_hash) == info.path_hash
            &&& file.content_encoding == ContentEncoding::Brotli
            &&& file.extension@ == request.extension@
        },
        forall|other: FileInfo| #[trigger]
            after.files.contains_key(other) && other != info ==> before.files.contains_pair(
                other,
                after.files[other],
            ),
{
    lemma_pseudo_hash_tells_apart(info.path_hash, info.path_hash);
    assert forall|other: FileInfo| #[trigger]
        after.files.contains_key(other) && other != info implies before.files.contains_pair(
        other,
        after.files[other],
    ) by {
        let file = r->Ok_0->Done_0;
        assert(before.files.insert(info, file).contains_pair(other, after.files[other]));
    }
}

/// Where there is no room for a copy, the original is served, and half of the cached files, rounded
/// down, stay as they are; where compression fails otherwise, that is reported, and all stay. In no
/// case do the settings change.
pub proof fn lemma_compression_fails<E>(
    before: CacheState,
    after: CacheState,
    request: Request,
    info: FileInfo,
    failure: CompressFailure<E>,
    r: Result<Step, CompressionError<E>>,
    left: FileInfo,
)
    requires
        after_compressing(before, after, request, info, Err(failure), r),
    ensures
        failure is StorageFull ==> {
            &&& r matches Ok(step) && step is OpenOriginal
            &&& after.files.dom().len() == before.files.dom().len() / 2
            &&& after.files.contains_key(left) ==> before.files.contains_pair(
                left,
                after.files[left],
            )
        },
        failure matches CompressFailure::Other(e) ==> {
            &&& r matches Err(error) && error.cause == e && error.message@
                == "Brotli compression failed for "@ + displayed(path_bytes(request.path))
            &&& after.files == before.files
        },
        after.capacity == before.capacity,
        after.max_total_weight == before.max_total_weight,
        after.quality == before.quality,
        after.extensions == before.extensions,
        after.max_file_size == before.max_file_size,
{
    if failure is StorageFull {
        lemma_prune_halves(after.files, before.files, left, left);
    }
}

/// A new cache is empty and has the settings that it was made with, but for a capacity below
/// sixteen, which is raised to that.
pub proof fn lemma_new_cache(settings: CachedCompression, cache: BrotliCache)
    requires
        call_ensures(BrotliCache::from, (settings,), cache),
    ensures
        forall|key: FileInfo| !(#[trigger] cache@.files.contains_key(key)),
        cache@.capacity >= 16,
        settings.capacity >= 16 ==> cache@.capacity == settings.capacity,
        settings.capacity < 16 ==> cache@.capacity == 16,
        cache@.max_total_weight == settings.max_total_weight,
        cache@.max_file_size == settings.max_file_size,
        cache@.quality == level_number(settings.compression_level),
{
}

/// A new cache compresses exactly the files whose extension is in the given list.
pub proof fn lemma_listed_extensions(
    settings: CachedCompression,
    cache: BrotliCache,
    list: Vec<&'static str>,
    extension: Seq<char>,
)
    requires
        call_ensures(BrotliCache::from, (settings,), cache),
        settings.supported_extensions == Some(list),
    ensures
        cache@.extensions.contains(extension) <==> exists|i: int|
            0 <= i < list@.len() && (#[trigger] list@[i])@ == extension,
{
    let texts = list@.map_values(|text: &str| text@);
    if cache@.extensions.contains(extension) {
        let i = choose|i: int| 0 <= i < texts.len() && texts[i] == extension;
        assert(list@[i]@ == extension);
    }
    if exists|i: int| 0 <= i < list@.len() && (#[trigger] list@[i])@ == extension {
        let i = choose|i: int| 0 <= i < list@.len() && (#[trigger] list@[i])@ == extension;
        assert(texts[i] == extension);
    }
}

/// A new cache for which no list is given compresses these text types and no others.
pub proof fn lemma_default_extensions(
    settings: CachedCompression,
    cache: BrotliCache,
    extension: Seq<char>,
)
    requires
        call_ensures(BrotliCache::from, (settings,), cache),
        settings.supported_extensions is None,
    ensures
        cache@.extensions.contains(extension) <==> {
            ||| extension == "html"@
            ||| extension == "htm"@
            ||| extension == "xhtml"@
            ||| extension == "css"@
            ||| extension == "js"@
            ||| extension == "json"@
            ||| extension == "xml"@
            ||| extension == "svg"@
            ||| extension == "txt"@
            ||| extension == "csv"@
            ||| extension == "tsv"@
            ||| extension == "md"@
        },
{
}

/// What a cache tells of its settings are its settings, and the files that it compresses are those
/// that it calls text.
pub proof fn lemma_settings_told(
    cache: &BrotliCache,
    extension: &str,
    capacity: usize,
    quality: i32,
    max_file_size: u64,
    supported: bool,
    mode: BrotliMode,
)
    requires
        call_ensures(BrotliCache::capacity, (cache,), capacity),
        call_ensures(BrotliCache::quality, (cache,), quality),
        call_ensures(BrotliCache::max_file_size, (cache,), max_file_size),
        call_ensures(BrotliCache::supports, (cache, extension), supported),
        call_ensures(BrotliCache::detect_brotli_mode, (cache, extension), mode),
    ensures
        capacity == cache@.capacity,
        quality == cache@.quality,
        max_file_size == cache@.max_file_size,
        supported == cache@.extensions.contains(extension@),
        mode == BrotliMode::Text <==> supported,
        mode == BrotliMode::Generic <==> !supported,
{
}

/// The original is handed out as it is: not compressed, under the extension that was asked for.
pub proof fn lemma_original(request: &Request, handle: u64, info: FileInfo, r: MatchedFile)
    requires
        call_ensures(BrotliCache::wrap_orig, (request, handle, info), r),
    ensures
        r.handle == handle,
        r.file_info == info,
        r.content_encoding is Identity,
        r.extension@ == request.extension@,
{
}

/// The handles are those of the cached files, all of them.
pub proof fn lemma_handles(cache: &BrotliCache, r: Vec<u64>, key: FileInfo, i: int)
    requires
        call_ensures(BrotliCache::handles, (cache,), r),
    ensures
        cache@.files.contains_key(key) ==> r@.contains(cache@.files[key].handle),
        0 <= i < r@.len() ==> exists|other: FileInfo| #[trigger]
            cache@.files.contains_key(other) && cache@.files[other].handle == r@[i],
{
    if cache@.files.contains_key(key) {
        assert(r@.contains(cache@.files[key].handle));
    }
    if 0 <= i < r@.len() {
        assert(r@.contains(r@[i]));
    }
}

/// A cache can be made of all settings that leave room for a file, and for a byte of weight in each
/// of its parts.
pub proof fn lemma_usable_settings(settings: CachedCompression)
    ensures
        settings.capacity >= 1 && settings.max_total_weight >= 16 ==> call_requires(
            BrotliCache::from,
            (settings,),
        ),
{
}

/// A cached copy weighs its length in bytes, as far as the machine can count.
pub proof fn lemma_file_weight(file: MatchedFile)
    ensures
        file.file_info.len <= usize::MAX ==> file_weight(file) == file.file_info.len,
{
}

} // verus!
