//! Files as HTTP entities: what identifies a file, how its bytes are read chunk by chunk, and the
//! headers that describe it.

use crate::etag::ETag;
use crate::headers::{
    append_headers, appended, at_most, header_fields, lemma_appended_values, value_bytes,
    NAME_LIMIT,
};
use crate::node::FileMetadata;
use http::{HeaderMap, HeaderValue};
use std::ops::Range;
use std::time::SystemTime;
use vstd::arithmetic::power2::is_pow2;
use vstd::prelude::*;

verus! {

/// `std::time::SystemTime`, opaque.
#[verifier::external_type_specification]
#[verifier::external_body]
pub struct ExSystemTime(std::time::SystemTime);

/// `SystemTime` under `==`: true for the same point in time.
pub assume_specification[ <std::time::SystemTime as PartialEq>::eq ](
    a: &SystemTime,
    b: &SystemTime,
) -> (r: bool)
    ensures
        r == (*a == *b),
;

/// What tells the state of a file apart from others: a hash of its path, its length and when it was
/// modified.
#[derive(Clone, Copy, Debug, Hash)]
pub struct FileInfo {
    /// A hash of the path.
    pub path_hash: u64,
    /// The length in bytes.
    pub len: u64,
    /// When the file was last modified.
    pub mtime: SystemTime,
}

impl PartialEq for FileInfo {
    fn eq(&self, other: &Self) -> (r: bool) {
        self.path_hash == other.path_hash && self.len == other.len && self.mtime == other.mtime
    }
}

impl vstd::std_specs::cmp::PartialEqSpecImpl for FileInfo {
    open spec fn obeys_eq_spec() -> bool {
        true
    }

    open spec fn eq_spec(&self, other: &Self) -> bool {
        *self == *other
    }
}

impl Eq for FileInfo {

}

impl FileInfo {
    /// The hash of the path.
    pub fn get_hash(&self) -> (r: u64)
        ensures
            r == self.path_hash,
    {
        self.path_hash
    }

    /// The length in bytes.
    pub fn len(&self) -> (r: u64)
        ensures
            r == self.len,
    {
        self.len
    }

    /// When the file was last modified.
    pub fn mtime(&self) -> (r: SystemTime)
        ensures
            r == self.mtime,
    {
        self.mtime
    }
}

/// A cache of entity tags by the state of a file, of a fixed number of buckets.
///
/// It is opaque: it holds a `fixed_cache::Cache`, hashed by `rapidhash`.
#[verifier::external_body]
pub struct ETagCache {
    cache: fixed_cache::Cache<
        FileInfo,
        ETag,
        std::hash::BuildHasherDefault<rapidhash::fast::RapidHasher<'static>>,
    >,
}

/// The entity tags that a cache holds.
pub uninterp spec fn cached_tags(cache: ETagCache) -> Map<FileInfo, ETag>;

/// The number of buckets that a cache was made with.
pub uninterp spec fn bucket_count(cache: ETagCache) -> int;

/// A cache that holds nothing, but may know a file of path hash zero and length zero: an unused
/// bucket is all zeroes.
pub open spec fn is_fresh(tags: Map<FileInfo, ETag>) -> bool {
    forall|info: FileInfo| #[trigger]
        tags.contains_key(info) ==> info.path_hash == 0 && info.len == 0
}

/// What a cache holds after a tag was put in: the tag, no others that are new, and all that it had
/// but for one at most.
pub open spec fn took_in(
    before: Map<FileInfo, ETag>,
    after: Map<FileInfo, ETag>,
    info: FileInfo,
    tag: ETag,
) -> bool {
    &&& after.contains_pair(info, tag)
    &&& forall|other: FileInfo| #[trigger]
        after.contains_key(other) && other != info ==> before.contains_pair(other, after[other])
    &&& forall|a: FileInfo, b: FileInfo| #[trigger]
        before.contains_key(a) && !after.contains_key(a) && #[trigger] before.contains_key(b)
            && !after.contains_key(b) ==> a == b
}

/// `fixed_cache::Cache::new` with the default `rapidhash` hasher: a fresh cache. It panics on a
/// number of buckets that is no power of two or less than four, or that memory cannot hold.
#[verifier::external_body]
fn new_cache(buckets: usize) -> (r: ETagCache)
    requires
        4 <= buckets <= 65_536,
        is_pow2(buckets as int),
    ensures
        is_fresh(cached_tags(r)),
        bucket_count(r) == buckets,
{
    ETagCache { cache: fixed_cache::Cache::new(buckets, Default::default()) }
}

/// The number of entity tags that are cached at most.
pub const CACHE_SIZE: usize = 512;

/// `fixed_cache::Cache::get_or_try_insert_with`: the tag that the cache has for the file; where it
/// has none, that which `f` makes, which is put in. Each file has one bucket, and a bucket holds
/// one file, so one other may be put out. An error of `f` is handed on, and changes nothing.
#[verifier::external_body]
fn tag_or_insert<E, F: FnOnce(&FileInfo) -> Result<ETag, E>>(
    cache: &mut ETagCache,
    info: FileInfo,
    f: F,
) -> (r: Result<ETag, E>)
    requires
        call_requires(f, (&info,)),
    ensures
        cached_tags(*old(cache)).contains_key(info) ==> (r matches Ok(tag) && tag == cached_tags(
            *old(cache),
        )[info]),
        cached_tags(*old(cache)).contains_key(info) ==> cached_tags(*final(cache)) == cached_tags(
            *old(cache),
        ),
        !cached_tags(*old(cache)).contains_key(info) ==> call_ensures(f, (&info,), r),
        !cached_tags(*old(cache)).contains_key(info) ==> match r {
            Ok(tag) => took_in(cached_tags(*old(cache)), cached_tags(*final(cache)), info, tag),
            Err(_) => cached_tags(*final(cache)) == cached_tags(*old(cache)),
        },
        bucket_count(*final(cache)) == bucket_count(*old(cache)),
{
    cache.cache.get_or_try_insert_with(info, f)
}

impl ETagCache {
    /// A fresh cache of `CACHE_SIZE` buckets.
    pub fn new() -> (r: Self)
        ensures
            is_fresh(cached_tags(r)),
            bucket_count(r) == CACHE_SIZE,
    {
        proof {
            reveal_with_fuel(is_pow2, 10);
        }
        new_cache(CACHE_SIZE)
    }
}

/// The largest number of bytes that are read at once. This size is a tradeoff between memory usage
/// and thread handoffs.
pub const CHUNK_SIZE: u64 = 65_536;

/// Reads a range of a file in chunks of at most `CHUNK_SIZE` bytes.
pub struct ChunkReader {
    start: u64,
    end: u64,
}

/// The size of the next chunk of a range of this length.
pub open spec fn chunk_size(left: int) -> int {
    if left < CHUNK_SIZE {
        left
    } else {
        CHUNK_SIZE as int
    }
}

impl ChunkReader {
    #[verifier::type_invariant]
    spec fn in_order(&self) -> bool {
        self.start <= self.end
    }

    /// Where the next chunk starts.
    pub closed spec fn first(&self) -> u64 {
        self.start
    }

    /// Where the range ends.
    pub closed spec fn last(&self) -> u64 {
        self.end
    }

    /// A reader of a range.
    pub fn new(range: Range<u64>) -> (r: Self)
        requires
            range.start <= range.end,
        ensures
            r.first() == range.start,
            r.last() == range.end,
    {
        ChunkReader { start: range.start, end: range.end }
    }

    /// The position and the size of the next chunk to read; none at the end of the range.
    pub fn next_chunk(&self) -> (r: Option<(u64, usize)>)
        ensures
            self.first() <= self.last(),
            match r {
                Some((offset, size)) => {
                    &&& self.first() < self.last()
                    &&& offset == self.first()
                    &&& size == chunk_size(self.last() - self.first())
                },
                None => self.first() == self.last(),
            },
    {
        proof {
            use_type_invariant(self);
        }
        if self.start == self.end {
            return None;
        }
        let left = self.end - self.start;
        let size = if left < CHUNK_SIZE {
            left
        } else {
            CHUNK_SIZE
        };
        Some((self.start, size as usize))
    }

    /// Takes in what came of reading the next chunk, and hands it on. After an error the same chunk
    /// is next again.
    pub fn advance<E>(&mut self, read: Result<Vec<u8>, E>) -> (r: Result<Vec<u8>, E>)
        requires
            read matches Ok(bytes) ==> bytes@.len() <= chunk_size(
                old(self).last() - old(self).first(),
            ),
        ensures
            r == read,
            has_advanced(*old(self), *final(self), read),
    {
        proof {
            use_type_invariant(&*self);
        }
        if let Ok(bytes) = &read {
            self.start = self.start + bytes.len() as u64;
        }
        read
    }
}

/// What a read makes of a reader: it goes on by the bytes that were read, and by none after an
/// error.
pub open spec fn has_advanced<E>(
    before: ChunkReader,
    after: ChunkReader,
    read: Result<Vec<u8>, E>,
) -> bool {
    &&& after.last() == before.last()
    &&& after.first() == before.first() + (match read {
        Ok(bytes) => bytes@.len() as int,
        Err(_) => 0,
    })
}

/// `read` reads some of the bytes it is asked for, and no others, or fails.
pub open spec fn reads_on<E, F: Fn(u64, usize) -> Result<Vec<u8>, E>>(read: F) -> bool {
    forall|offset: u64, size: usize, bytes: Vec<u8>|
        size > 0 && #[trigger] call_ensures(read, (offset, size), Ok(bytes)) ==> 0 < bytes@.len()
            <= size
}

/// What `read` reads are the bytes of `data`.
pub open spec fn reads_from<E, F: Fn(u64, usize) -> Result<Vec<u8>, E>>(
    read: F,
    data: Seq<u8>,
) -> bool {
    forall|offset: u64, size: usize, bytes: Vec<u8>|
        offset + size <= data.len() && #[trigger] call_ensures(read, (offset, size), Ok(bytes))
            ==> bytes@ == data.subrange(offset as int, offset + bytes@.len())
}

/// Some read of a chunk between `start` and `end` failed like this.
pub open spec fn read_failed<E, F: Fn(u64, usize) -> Result<Vec<u8>, E>>(
    read: F,
    start: int,
    end: int,
    e: E,
) -> bool {
    exists|offset: u64, size: usize|
        {
            &&& start <= offset < end
            &&& size == chunk_size(end - offset)
            &&& #[trigger] call_ensures(read, (offset, size), Err(e))
        }
}

/// What came of reading all from `start` to `end`: the bytes there, or the error of one read.
pub open spec fn has_read<E, F: Fn(u64, usize) -> Result<Vec<u8>, E>>(
    read: F,
    start: int,
    end: int,
    r: Result<Vec<u8>, E>,
) -> bool {
    match r {
        Ok(bytes) => {
            &&& bytes@.len() == end - start
            &&& forall|data: Seq<u8>|
                end <= data.len() && #[trigger] reads_from(read, data) ==> bytes@ == data.subrange(
                    start,
                    end,
                )
        },
        Err(e) => read_failed(read, start, end, e),
    }
}

/// What came of reading a body of this length: all of it, or the error of one read.
pub open spec fn has_read_body<E, F: Fn(u64, usize) -> Result<Vec<u8>, E>>(
    read: F,
    len: int,
    r: Result<Vec<u8>, E>,
) -> bool {
    match r {
        Ok(bytes) => {
            &&& bytes@.len() == len
            &&& forall|data: Seq<u8>|
                data.len() == len && #[trigger] reads_from(read, data) ==> bytes@ == data
        },
        Err(e) => read_failed(read, 0, len, e),
    }
}

/// Reads what is left to read, chunk by chunk, up to the first error.
pub fn read_chunks<E, F: Fn(u64, usize) -> Result<Vec<u8>, E>>(
    reader: ChunkReader,
    read: F,
) -> (r: Result<Vec<u8>, E>)
    requires
        forall|offset: u64, size: usize| #[trigger] call_requires(read, (offset, size)),
        reads_on(read),
    ensures
        has_read(read, reader.first() as int, reader.last() as int, r),
{
    let ghost start = reader.first();
    let ghost end = reader.last();
    let mut rest = reader;
    let mut all: Vec<u8> = Vec::new();
    proof {
        use_type_invariant(&rest);
    }
    loop
        invariant
            forall|offset: u64, size: usize| #[trigger] call_requires(read, (offset, size)),
            reads_on(read),
            start == reader.first(),
            end == reader.last(),
            rest.last() == end,
            start <= rest.first(),
            all@.len() == rest.first() - start,
            forall|data: Seq<u8>|
                end <= data.len() && rest.first() <= end && #[trigger] reads_from(read, data)
                    ==> all@ == data.subrange(start as int, rest.first() as int),
        decreases end - rest.first(),
    {
        match rest.next_chunk() {
            None => {
                return Ok(all);
            },
            Some((offset, size)) => {
                let ghost before = all@;
                let outcome = read(offset, size);
                match rest.advance(outcome) {
                    Err(e) => {
                        return Err(e);
                    },
                    Ok(mut bytes) => {
                        let ghost chunk = bytes@;
                        all.append(&mut bytes);
                        assert forall|data: Seq<u8>|
                            end <= data.len() && rest.first() <= end && #[trigger] reads_from(
                                read,
                                data,
                            ) implies all@ == data.subrange(
                            start as int,
                            rest.first() as int,
                        ) by {
                            assert(chunk == data.subrange(offset as int, offset + chunk.len()));
                            assert(before == data.subrange(start as int, offset as int));
                            assert(all@ =~= data.subrange(start as int, rest.first() as int));
                        }
                    },
                }
            },
        }
    }
}

/// The headers of an entity were put behind those that were there.
pub open spec fn has_added(
    before: Map<Seq<char>, Seq<Seq<u8>>>,
    after: Map<Seq<char>, Seq<Seq<u8>>>,
    own: Map<Seq<char>, Seq<Seq<u8>>>,
) -> bool {
    after == appended(before, own)
}

/// A reusable, read-only, byte-rangeable HTTP entity for GET and HEAD serving.
/// Must return exactly the same data on every call.
pub trait Entity {
    /// The length of the body.
    spec fn body_len(&self) -> u64;

    /// The headers that describe the body.
    spec fn own_headers(&self) -> Map<Seq<char>, Seq<Seq<u8>>>;

    /// The entity tag, by its bytes.
    spec fn tag(&self) -> Option<Seq<u8>>;

    /// When the body was last modified.
    spec fn modified(&self) -> Option<SystemTime>;

    /// Returns the length of the entity's body in bytes.
    fn len(&self) -> (r: u64)
        ensures
            r == self.body_len(),
    ;

    /// Returns true iff the entity's body has length 0.
    fn is_empty(&self) -> (r: bool)
        ensures
            r == (self.body_len() == 0),
    {
        self.len() == 0
    }

    /// Gets a reader of the body bytes indicated by `range`.
    ///
    /// The chunks that it asks for make up exactly `range.end - range.start` bytes.
    fn get_range(&self, range: Range<u64>) -> (r: ChunkReader)
        requires
            range.start <= range.end,
        ensures
            r.first() == range.start,
            r.last() == range.end,
    ;

    /// Adds entity headers such as `Content-Type` to the supplied `HeaderMap`.
    /// In particular, these headers are the "other representation header fields" described by [RFC
    /// 7233 section 4.1](https://tools.ietf.org/html/rfc7233#section-4.1); they should exclude
    /// `Content-Range`, `Date`, `Cache-Control`, `ETag`, `Expires`, `Content-Location`, and `Vary`.
    ///
    /// This function will be called only when that section says that headers such as
    /// `Content-Type` should be included in the response.
    fn add_headers(&self, headers: &mut HeaderMap<HeaderValue>)
        requires
            at_most(
                appended(header_fields(*old(headers)), self.own_headers()),
                NAME_LIMIT as int,
            ),
        ensures
            has_added(
                header_fields(*old(headers)),
                header_fields(*final(headers)),
                self.own_headers(),
            ),
    ;

    /// Returns an etag for this entity, if available.
    /// Implementations are encouraged to provide a strong etag. [RFC 7232 section
    /// 2.1](https://tools.ietf.org/html/rfc7232#section-2.1) notes that only strong etags
    /// are usable for sub-range retrieval.
    fn etag(&self) -> (r: Option<HeaderValue>)
        ensures
            match r {
                Some(value) => self.tag() == Some(value_bytes(value)),
                None => self.tag() is None,
            },
    ;

    /// Returns the last modified time of this entity, if available.
    fn last_modified(&self) -> (r: Option<SystemTime>)
        ensures
            r == self.modified(),
    ;

    /// Reads the entire body of this entity.
    ///
    /// This is a convenience method for testing and debugging.
    fn read_body<E, F: Fn(u64, usize) -> Result<Vec<u8>, E>>(&self, read: F) -> (r: Result<
        Vec<u8>,
        E,
    >)
        requires
            forall|offset: u64, size: usize| #[trigger] call_requires(read, (offset, size)),
            reads_on(read),
        ensures
            has_read_body(read, self.body_len() as int, r),
    {
        let reader = self.get_range(0..self.len());
        let r = read_chunks(reader, read);
        proof {
            assert forall|data: Seq<u8>|
                r is Ok && data.len() == self.body_len() && #[trigger] reads_from(
                    read,
                    data,
                ) implies r->Ok_0@ == data by {
                assert(data.subrange(0, data.len() as int) =~= data);
            }
        }
        r
    }
}

/// Why a file cannot be served.
pub enum EntityError<E> {
    /// It is no plain file.
    NotAFile(&'static str),
    /// It could not be examined or read.
    Failed(E),
}

/// HTTP entity created from a file, which is read chunk by chunk.
pub struct ChunkedReadFile {
    len: u64,
    mtime: SystemTime,
    headers: HeaderMap<HeaderValue>,
    etag: ETag,
}

impl ChunkedReadFile {
    /// What identifies the file.
    pub closed spec fn matches(&self, info: FileInfo) -> bool {
        self.len == info.len && self.mtime == info.mtime
    }

    /// The hash of the bytes of the file.
    pub closed spec fn hash(&self) -> ETag {
        self.etag
    }

    /// Creates an entity for a file, with presupplied metadata. `examine` finds out what identifies
    /// the file, `hash_file` hashes its bytes; the hash is taken from `cache` where it has one.
    ///
    /// The metadata might be those of a directory. If so, it's better to realize that now (while
    /// a proper HTTP error can still be sent) rather than while the body is read (when all that can
    /// be done is drop the HTTP connection).
    pub fn new_with_metadata<
        E,
        G: FnOnce() -> Result<FileInfo, E>,
        F: FnOnce(&FileInfo) -> Result<ETag, E>,
    >(
        metadata: &FileMetadata,
        headers: HeaderMap<HeaderValue>,
        cache: &mut ETagCache,
        examine: G,
        hash_file: F,
    ) -> (r: Result<Self, EntityError<E>>)
        requires
            call_requires(examine, ()),
            forall|info: &FileInfo| #[trigger] call_requires(hash_file, (info,)),
        ensures
            entity_made(
                r,
                *metadata,
                header_fields(headers),
                cached_tags(*old(cache)),
                cached_tags(*final(cache)),
                examine,
                hash_file,
            ),
            bucket_count(*final(cache)) == bucket_count(*old(cache)),
    {
        if !metadata.is_file {
            return Err(EntityError::NotAFile("expected a file"));
        }
        let info = match examine() {
            Ok(info) => info,
            Err(e) => {
                return Err(EntityError::Failed(e));
            },
        };
        match tag_or_insert(cache, info, hash_file) {
            Ok(etag) => Ok(ChunkedReadFile { len: info.len, mtime: info.mtime, headers, etag }),
            Err(e) => Err(EntityError::Failed(e)),
        }
    }
}

/// What comes of making an entity for a file, and what it makes of the cached tags.
pub open spec fn entity_made<
    E,
    G: FnOnce() -> Result<FileInfo, E>,
    F: FnOnce(&FileInfo) -> Result<ETag, E>,
>(
    r: Result<ChunkedReadFile, EntityError<E>>,
    metadata: FileMetadata,
    headers: Map<Seq<char>, Seq<Seq<u8>>>,
    before: Map<FileInfo, ETag>,
    after: Map<FileInfo, ETag>,
    examine: G,
    hash_file: F,
) -> bool {
    &&& match r {
        Ok(entity) => {
            &&& metadata.is_file
            &&& entity.own_headers() == headers
            &&& exists|info: FileInfo|
                {
                    &&& #[trigger] call_ensures(examine, (), Ok(info))
                    &&& entity.matches(info)
                    &&& tagged(before, after, info, entity.hash())
                    &&& !before.contains_key(info) ==> call_ensures(
                        hash_file,
                        (&info,),
                        Ok(entity.hash()),
                    )
                }
        },
        Err(EntityError::NotAFile(m)) => !metadata.is_file && m@ == "expected a file"@,
        Err(EntityError::Failed(e)) => metadata.is_file && (call_ensures(examine, (), Err(e))
            || exists|info: FileInfo|
            {
                &&& call_ensures(examine, (), Ok(info))
                &&& !before.contains_key(info)
                &&& #[trigger] call_ensures(hash_file, (&info,), Err(e))
            }),
    }
    &&& r is Err ==> after == before
}

/// How a cache comes to have `tag` for a file: it had it, and is unchanged; or it took it in.
pub open spec fn tagged(
    before: Map<FileInfo, ETag>,
    after: Map<FileInfo, ETag>,
    info: FileInfo,
    tag: ETag,
) -> bool {
    if before.contains_key(info) {
        tag == before[info] && after == before
    } else {
        took_in(before, after, info, tag)
    }
}

/// A file that is asked for again, unchanged, keeps its tag and is not hashed again.
pub proof fn lemma_tag_is_stable(
    before: Map<FileInfo, ETag>,
    between: Map<FileInfo, ETag>,
    after: Map<FileInfo, ETag>,
    info: FileInfo,
    first: ETag,
    second: ETag,
)
    requires
        tagged(before, between, info, first),
        tagged(between, after, info, second),
    ensures
        between.contains_key(info),
        second == first,
        after == between,
{
}

impl Entity for ChunkedReadFile {
    closed spec fn body_len(&self) -> u64 {
        self.len
    }

    closed spec fn own_headers(&self) -> Map<Seq<char>, Seq<Seq<u8>>> {
        header_fields(self.headers)
    }

    closed spec fn tag(&self) -> Option<Seq<u8>> {
        Some(self.etag.quoted())
    }

    closed spec fn modified(&self) -> Option<SystemTime> {
        Some(self.mtime)
    }

    fn len(&self) -> (r: u64) {
        self.len
    }

    fn get_range(&self, range: Range<u64>) -> (r: ChunkReader) {
        ChunkReader::new(range)
    }

    fn add_headers(&self, headers: &mut HeaderMap<HeaderValue>) {
        append_headers(headers, &self.headers);
    }

    fn etag(&self) -> (r: Option<HeaderValue>) {
        Some(HeaderValue::from(self.etag))
    }

    fn last_modified(&self) -> (r: Option<SystemTime>) {
        Some(self.mtime)
    }
}

/// An entity has the length and the time of the file it was made of, and the hash, between double
/// quotes, for its tag.
pub proof fn lemma_entity_describes_file(entity: ChunkedReadFile, info: FileInfo)
    requires
        entity.matches(info),
    ensures
        entity.body_len() == info.len,
        entity.modified() == Some(info.mtime),
        entity.tag() == Some(entity.hash().quoted()),
{
}

/// A plain file that can be examined and hashed makes an entity of its length and time, with the
/// given headers; its tag is the one that is cached for this state of the file, else its hash,
/// which is cached then.
pub proof fn lemma_entity_of_file<
    E,
    G: FnOnce() -> Result<FileInfo, E>,
    F: FnOnce(&FileInfo) -> Result<ETag, E>,
>(
    r: Result<ChunkedReadFile, EntityError<E>>,
    metadata: FileMetadata,
    headers: Map<Seq<char>, Seq<Seq<u8>>>,
    before: Map<FileInfo, ETag>,
    after: Map<FileInfo, ETag>,
    examine: G,
    hash_file: F,
    info: FileInfo,
    hash: ETag,
)
    requires
        entity_made(r, metadata, headers, before, after, examine, hash_file),
        metadata.is_file,
        forall|o: Result<FileInfo, E>| #[trigger]
            call_ensures(examine, (), o) ==> o == Ok::<_, E>(info),
        forall|o: Result<ETag, E>| #[trigger]
            call_ensures(hash_file, (&info,), o) ==> o == Ok::<_, E>(hash),
    ensures
        r matches Ok(entity) && ({
            let tag = if before.contains_key(info) {
                before[info]
            } else {
                hash
            };
            &&& entity.body_len() == info.len
            &&& entity.modified() == Some(info.mtime)
            &&& entity.tag() == Some(tag.quoted())
            &&& entity.own_headers() == headers
            &&& after.contains_pair(info, tag)
            &&& before.contains_key(info) ==> after == before
        }),
{
}

/// What is no plain file makes no entity, and neither is it examined; what cannot be examined, or
/// has no cached tag and cannot be hashed, makes none for that reason.
pub proof fn lemma_no_entity<
    E,
    G: FnOnce() -> Result<FileInfo, E>,
    F: FnOnce(&FileInfo) -> Result<ETag, E>,
>(
    r: Result<ChunkedReadFile, EntityError<E>>,
    metadata: FileMetadata,
    headers: Map<Seq<char>, Seq<Seq<u8>>>,
    before: Map<FileInfo, ETag>,
    after: Map<FileInfo, ETag>,
    examine: G,
    hash_file: F,
    info: FileInfo,
    e: E,
)
    requires
        entity_made(r, metadata, headers, before, after, examine, hash_file),
    ensures
        !metadata.is_file ==> after == before && (r matches Err(EntityError::NotAFile(m)) && m@
            == "expected a file"@),
        metadata.is_file && (forall|o: Result<FileInfo, E>| #[trigger]
            call_ensures(examine, (), o) ==> o == Err::<FileInfo, _>(e)) ==> after == before && r
            == Err::<ChunkedReadFile, _>(EntityError::Failed(e)),
        metadata.is_file && !before.contains_key(info) && (forall|o: Result<FileInfo, E>| #[trigger]
            call_ensures(examine, (), o) ==> o == Ok::<_, E>(info)) && (forall|o: Result<ETag, E>|
         #[trigger] call_ensures(hash_file, (&info,), o) ==> o == Err::<ETag, _>(e)) ==> after
            == before && r == Err::<ChunkedReadFile, _>(EntityError::Failed(e)),
{
}

/// The chunks of a range: the next one starts where the last one ended, holds 64 KiB unless less is
/// left, and there is one until the end is reached.
pub proof fn lemma_chunks(range: Range<u64>, reader: ChunkReader, r: Option<(u64, usize)>)
    requires
        range.start <= range.end,
        call_ensures(ChunkReader::new, (range,), reader),
        call_ensures(ChunkReader::next_chunk, (&reader,), r),
    ensures
        r is None <==> range.start == range.end,
        r matches Some((offset, size)) ==> {
            &&& offset == range.start
            &&& range.end - range.start >= 65_536 ==> size == 65_536
            &&& range.end - range.start < 65_536 ==> size == range.end - range.start
        },
{
}

/// Where no read fails, the bytes of the range are read, all of them.
pub proof fn lemma_whole_range<E, F: Fn(u64, usize) -> Result<Vec<u8>, E>>(
    range: Range<u64>,
    reader: ChunkReader,
    read: F,
    data: Seq<u8>,
    r: Result<Vec<u8>, E>,
)
    requires
        range.start <= range.end <= data.len(),
        call_ensures(ChunkReader::new, (range,), reader),
        call_ensures(read_chunks::<E, F>, (reader, read), r),
        reads_from(read, data),
        forall|offset: u64, size: usize, o: Result<Vec<u8>, E>| #[trigger]
            call_ensures(read, (offset, size), o) ==> o is Ok,
    ensures
        r matches Ok(bytes) && bytes@ == data.subrange(range.start as int, range.end as int),
{
    if let Err(e) = r {
        let (offset, size) = choose|offset: u64, size: usize|
            {
                &&& range.start <= offset < range.end
                &&& size == chunk_size(range.end - offset)
                &&& #[trigger] call_ensures(read, (offset, size), Err(e))
            };
        assert(call_ensures(read, (offset, size), r));
    }
}

/// An entity is empty where its length is zero, and its readers read the ranges that were asked
/// for.
pub proof fn lemma_entity<T: Entity>(
    entity: &T,
    len: u64,
    is_empty: bool,
    range: Range<u64>,
    reader: ChunkReader,
)
    requires
        call_ensures(T::len, (entity,), len),
        call_ensures(T::is_empty, (entity,), is_empty),
        call_ensures(T::get_range, (entity, range), reader),
    ensures
        is_empty <==> len == 0,
        reader.first() == range.start,
        reader.last() == range.end,
{
}

/// What an entity tells of a file: its length, its tag, and when it was modified.
pub proof fn lemma_entity_tells(
    entity: &ChunkedReadFile,
    info: FileInfo,
    len: u64,
    etag: Option<HeaderValue>,
    modified: Option<SystemTime>,
)
    requires
        entity.matches(info),
        call_ensures(<ChunkedReadFile as Entity>::len, (entity,), len),
        call_ensures(<ChunkedReadFile as Entity>::etag, (entity,), etag),
        call_ensures(<ChunkedReadFile as Entity>::last_modified, (entity,), modified),
    ensures
        len == info.len,
        modified == Some(info.mtime),
        etag matches Some(value) && value_bytes(value) == entity.hash().quoted(),
{
}

/// What a file's state tells of itself; two states are the same where all three of its parts are.
pub proof fn lemma_file_info(
    a: &FileInfo,
    b: &FileInfo,
    hash: u64,
    len: u64,
    mtime: SystemTime,
    same: bool,
)
    requires
        call_ensures(FileInfo::get_hash, (a,), hash),
        call_ensures(FileInfo::len, (a,), len),
        call_ensures(FileInfo::mtime, (a,), mtime),
        call_ensures(<FileInfo as PartialEq>::eq, (a, b), same),
    ensures
        hash == a.path_hash,
        len == a.len,
        mtime == a.mtime,
        same <==> hash == b.path_hash && len == b.len && mtime == b.mtime,
{
}

/// A new cache of tags knows no file but perhaps an empty one of path hash zero, and has 512
/// buckets.
pub proof fn lemma_new_tags(cache: ETagCache, info: FileInfo)
    requires
        call_ensures(ETagCache::new, (), cache),
    ensures
        bucket_count(cache) == 512,
        info.path_hash != 0 || info.len != 0 ==> !cached_tags(cache).contains_key(info),
{
}

/// After a read the next chunk starts behind the bytes that came, and after an error it is the same
/// chunk again; the end stays.
pub proof fn lemma_advanced<E>(
    before: ChunkReader,
    after: ChunkReader,
    read: Result<Vec<u8>, E>,
    first: Option<(u64, usize)>,
    second: Option<(u64, usize)>,
)
    requires
        has_advanced(before, after, read),
        call_ensures(ChunkReader::next_chunk, (&before,), first),
        call_ensures(ChunkReader::next_chunk, (&after,), second),
    ensures
        read is Err ==> second == first,
        read matches Ok(bytes) && first is Some && second is Some ==> second.unwrap().0
            == first.unwrap().0 + read->Ok_0@.len(),
        read matches Ok(bytes) && first is Some && second is None ==> first.unwrap().0
            + read->Ok_0@.len() == before.last(),
        after.last() == before.last(),
{
}

/// Where no read fails, the whole body is read.
pub proof fn lemma_whole_body<E, F: Fn(u64, usize) -> Result<Vec<u8>, E>>(
    read: F,
    data: Seq<u8>,
    r: Result<Vec<u8>, E>,
)
    requires
        has_read_body(read, data.len() as int, r),
        reads_from(read, data),
        forall|offset: u64, size: usize, o: Result<Vec<u8>, E>| #[trigger]
            call_ensures(read, (offset, size), o) ==> o is Ok,
    ensures
        r matches Ok(bytes) && bytes@ == data,
{
    if let Err(e) = r {
        let (offset, size) = choose|offset: u64, size: usize|
            {
                &&& 0 <= offset < data.len()
                &&& size == chunk_size(data.len() - offset)
                &&& #[trigger] call_ensures(read, (offset, size), Err(e))
            };
        assert(call_ensures(read, (offset, size), r));
    }
}

/// Each header of an entity is added, behind those that were there, and none of those is lost.
pub proof fn lemma_added_headers(
    before: Map<Seq<char>, Seq<Seq<u8>>>,
    after: Map<Seq<char>, Seq<Seq<u8>>>,
    own: Map<Seq<char>, Seq<Seq<u8>>>,
    name: Seq<char>,
)
    requires
        has_added(before, after, own),
    ensures
        after.contains_key(name) <==> before.contains_key(name) || own.contains_key(name),
        before.contains_key(name) && !own.contains_key(name) ==> after[name] == before[name],
        !before.contains_key(name) && own.contains_key(name) ==> after[name] == own[name],
        before.contains_key(name) && own.contains_key(name) ==> after[name] == before[name]
            + own[name],
{
    lemma_appended_values(before, own, name);
}

} // verus!
