//! Finding the file that answers a request, in the best encoding that the client takes, and the
//! headers that go with it.

use crate::compression::CompressionSupport;
use crate::headers::{at_most, header_fields, insert_value, value_bytes, NAME_LIMIT};
use crate::paths::{
    clone_path, display_path, displayed, file_name, final_component, is_absolute,
    lemma_final_component, lemma_longer_component, lemma_name_behind, lemma_replaced_steps,
    lies_in, path_bytes, push_text, renamed, set_file_name, steps,
};
use http::{HeaderMap, HeaderName, HeaderValue};
use std::path::PathBuf;
use vstd::prelude::*;
use vstd::string::{StringExecFns, StringSliceAdditionalSpecFns};
use vstd::utf8::encode_utf8;

verus! {

/// The encoding in which a file is stored.
#[derive(Clone, Copy, Debug, PartialEq, Eq, Structural)]
pub enum ContentEncoding {
    /// Compressed with gzip.
    Gzip,
    /// Compressed with brotli.
    Brotli,
    /// Not compressed.
    Identity,
}

/// The value of the `Content-Encoding` header for an encoding, if it has any.
pub open spec fn encoding_name(encoding: ContentEncoding) -> Option<Seq<char>> {
    match encoding {
        ContentEncoding::Gzip => Some("gzip"@),
        ContentEncoding::Brotli => Some("br"@),
        ContentEncoding::Identity => None,
    }
}

impl ContentEncoding {
    /// Returns the encoding this file is assumed to have applied to the caller's request.
    /// E.g., if automatic gzip compression is enabled and `index.html.gz` was found when the
    /// caller requested `index.html`, this will return `Some("gzip")`. If the caller requests
    /// `index.html.gz`, this will return `None` because the gzip encoding is built in to the
    /// caller's request.
    pub fn get_header_value(&self) -> (r: Option<HeaderValue>)
        ensures
            match r {
                Some(v) => encoding_name(*self) is Some && value_bytes(v) == encode_utf8(
                    encoding_name(*self).unwrap(),
                ),
                None => encoding_name(*self) is None,
            },
    {
        proof {
            broadcast use vstd::string::is_ascii_spec_bytes;

            reveal_strlit("gzip");
            reveal_strlit("br");
            assert("gzip".is_ascii() && "br".is_ascii());
        }
        match self {
            ContentEncoding::Gzip => Some(HeaderValue::from_static("gzip")),
            ContentEncoding::Brotli => Some(HeaderValue::from_static("br")),
            ContentEncoding::Identity => None,
        }
    }
}

/// What is known of an opened path.
#[derive(Clone, Copy, Debug, PartialEq, Eq, Structural)]
pub struct FileMetadata {
    /// It is a plain file.
    pub is_file: bool,
    /// It is a directory.
    pub is_dir: bool,
}

/// What came of opening a path.
pub enum Probe<E> {
    /// Nothing is there.
    NotFound,
    /// It could not be opened or examined.
    Failed(E),
    /// It is open.
    Opened(FileMetadata),
}

/// An opened path.
///
/// This is not necessarily a plain file; it could also be a directory, for example.
pub struct Node {
    /// The path that was opened.
    pub path: PathBuf,
    /// What is known of it.
    pub metadata: FileMetadata,
    /// Whether encodings are negotiated with the client.
    pub auto_compress: bool,
    /// The encoding in which the file is stored.
    pub content_encoding: ContentEncoding,
}

/// Error returned when creating an entity for a path that is not a file.
#[derive(Debug)]
pub struct NotAFile(pub PathBuf);

impl NotAFile {
    /// What went wrong, in words.
    pub fn message(&self) -> (r: String)
        ensures
            r@ == "Path is not a file: "@ + displayed(path_bytes(self.0)),
    {
        let shown = display_path(&self.0);
        let mut text = String::from_str("Path is not a file: ");
        text.append(shown.as_str());
        text
    }
}

/// The path beside `path` that has `suffix` behind its name; none where `path` ends in no name.
pub open spec fn beside(path: Seq<u8>, suffix: Seq<char>) -> Option<Seq<u8>> {
    match final_component(path) {
        Some(name) => Some(renamed(path, name + encode_utf8(suffix))),
        None => None,
    }
}

/// `copy` leads to what is called like `path` with `suffix` behind, in the same directory; and
/// where `path` is written as a directory, one separator and a name, `copy` is `path` with `suffix`
/// behind.
pub open spec fn is_copy(path: Seq<u8>, copy: Seq<u8>, suffix: Seq<char>) -> bool {
    &&& final_component(path) is Some
    &&& final_component(copy) == Some(final_component(path).unwrap() + encode_utf8(suffix))
    &&& steps(copy) == steps(path).drop_last().push(
        final_component(path).unwrap() + encode_utf8(suffix),
    )
    &&& is_absolute(copy) == is_absolute(path)
    &&& forall|parent: Seq<u8>| #[trigger]
        lies_in(path, parent, final_component(path).unwrap()) ==> copy == path + encode_utf8(suffix)
}

/// `found` may answer for `path` in this encoding: the path itself, or a copy beside it.
pub open spec fn is_variant(path: Seq<u8>, found: Seq<u8>, encoding: ContentEncoding) -> bool {
    match encoding {
        ContentEncoding::Brotli => is_copy(path, found, ".br"@),
        ContentEncoding::Gzip => is_copy(path, found, ".gz"@),
        ContentEncoding::Identity => found == path,
    }
}

/// The candidate at this path and encoding, if there is a path.
pub open spec fn candidate(
    path: Option<Seq<u8>>,
    encoding: ContentEncoding,
) -> Seq<(Seq<u8>, ContentEncoding)> {
    match path {
        Some(p) => seq![(p, encoding)],
        None => Seq::empty(),
    }
}

/// The paths that may answer for `path`, best first: a brotli and a gzip copy beside it, as far as
/// the client takes them, then the path itself.
pub open spec fn candidates(path: Seq<u8>, supported: CompressionSupport) -> Seq<
    (Seq<u8>, ContentEncoding),
> {
    let br = if supported.takes_brotli() {
        candidate(beside(path, ".br"@), ContentEncoding::Brotli)
    } else {
        Seq::empty()
    };
    let gz = if supported.takes_gzip() {
        candidate(beside(path, ".gz"@), ContentEncoding::Gzip)
    } else {
        Seq::empty()
    };
    br + gz + seq![(path, ContentEncoding::Identity)]
}

/// What was opened can answer for a path: a plain file, or a directory where nothing compressed was
/// looked for.
pub open spec fn accepts(encoding: ContentEncoding, metadata: FileMetadata) -> bool {
    metadata.is_file || (encoding is Identity && metadata.is_dir)
}

/// After this no further candidate is looked at.
pub open spec fn settles<E>(encoding: ContentEncoding, probe: Probe<E>) -> bool {
    match probe {
        Probe::NotFound => false,
        Probe::Failed(_) => true,
        Probe::Opened(metadata) => accepts(encoding, metadata),
    }
}

/// `seen` are the outcomes of opening the candidates in turn, up to the first that settles it or to
/// the last candidate.
pub open spec fn is_search<E>(
    candidates: Seq<(Seq<u8>, ContentEncoding)>,
    seen: Seq<Probe<E>>,
) -> bool {
    &&& 0 < seen.len() <= candidates.len()
    &&& forall|i: int| 0 <= i < seen.len() - 1 ==> !settles(candidates[i].1, #[trigger] seen[i])
    &&& seen.len() == candidates.len() || settles(candidates[seen.len() - 1].1, seen.last())
}

/// What came of a search.
pub enum Verdict<E> {
    /// No candidate answers.
    Missing,
    /// A candidate could not be opened.
    Failed(E),
    /// This candidate answers.
    Found(Seq<u8>, ContentEncoding, FileMetadata),
}

/// What comes of one candidate.
pub open spec fn judge<E>(path: Seq<u8>, encoding: ContentEncoding, probe: Probe<E>) -> Verdict<E> {
    match probe {
        Probe::NotFound => Verdict::Missing,
        Probe::Failed(e) => Verdict::Failed(e),
        Probe::Opened(metadata) => if accepts(encoding, metadata) {
            Verdict::Found(path, encoding, metadata)
        } else {
            Verdict::Missing
        },
    }
}

/// What comes of a search.
pub open spec fn verdict<E>(
    candidates: Seq<(Seq<u8>, ContentEncoding)>,
    seen: Seq<Probe<E>>,
) -> Verdict<E> {
    let last = candidates[seen.len() - 1];
    judge(last.0, last.1, seen.last())
}

/// The result says what the verdict is.
pub open spec fn reports<E>(r: Result<Option<Node>, E>, verdict: Verdict<E>) -> bool {
    match verdict {
        Verdict::Missing => r matches Ok(node) && node is None,
        Verdict::Failed(e) => r matches Err(error) && error == e,
        Verdict::Found(path, encoding, metadata) => {
            &&& r matches Ok(Some(node))
            &&& path_bytes(node.path) == path
            &&& node.content_encoding == encoding
            &&& node.metadata == metadata
            &&& !node.auto_compress
        },
    }
}

/// Decides over one candidate by what came of opening it.
pub fn try_path<E>(path: PathBuf, encoding: ContentEncoding, probe: Probe<E>) -> (r: Result<
    Option<Node>,
    E,
>)
    ensures
        reports(r, judge(path_bytes(path), encoding, probe)),
{
    match probe {
        Probe::NotFound => Ok(None),
        Probe::Failed(e) => Err(e),
        Probe::Opened(metadata) => {
            if metadata.is_file || (matches!(encoding, ContentEncoding::Identity)
                && metadata.is_dir) {
                Ok(
                    Some(
                        Node { path, metadata, auto_compress: false, content_encoding: encoding },
                    ),
                )
            } else {
                Ok(None)
            }
        },
    }
}

/// The path beside `path` with `suffix` behind its name.
fn path_beside(path: &PathBuf, suffix: &str) -> (r: Option<PathBuf>)
    requires
        suffix.spec_bytes().len() > 1,
        !suffix.spec_bytes().contains(47u8),
    ensures
        match r {
            Some(p) => beside(path_bytes(*path), suffix@) == Some(path_bytes(p)) && is_copy(
                path_bytes(*path),
                path_bytes(p),
                suffix@,
            ),
            None => beside(path_bytes(*path), suffix@) is None,
        },
{
    match file_name(path) {
        Some(name) => {
            let ghost old_name = path_bytes(name);
            proof {
                lemma_final_component(path_bytes(*path));
                lemma_longer_component(old_name, suffix.spec_bytes());
            }
            let mut p = clone_path(path);
            set_file_name(&mut p, push_text(name, suffix));
            proof {
                lemma_replaced_steps(
                    path_bytes(*path),
                    path_bytes(p),
                    old_name + suffix.spec_bytes(),
                );
            }
            assert forall|parent: Seq<u8>| #[trigger]
                lies_in(path_bytes(*path), parent, old_name) implies path_bytes(p) == path_bytes(
                *path,
            ) + suffix.spec_bytes() by {
                assert(parent.push(47u8) + (old_name + suffix.spec_bytes()) =~= parent.push(47u8)
                    + old_name + suffix.spec_bytes());
            }
            Some(p)
        },
        None => None,
    }
}

/// Lists the paths that may answer for `path`, best first.
pub fn list_candidates(path: &PathBuf, supported: CompressionSupport) -> (r: Vec<
    (PathBuf, ContentEncoding),
>)
    ensures
        r@.map_values(|c: (PathBuf, ContentEncoding)| (path_bytes(c.0), c.1)) == candidates(
            path_bytes(*path),
            supported,
        ),
        forall|i: int|
            0 <= i < r@.len() ==> is_variant(
                path_bytes(*path),
                path_bytes((#[trigger] r@[i]).0),
                r@[i].1,
            ),
{
    proof {
        broadcast use vstd::string::is_ascii_spec_bytes;

        reveal_strlit(".br");
        reveal_strlit(".gz");
        assert(".br".is_ascii() && ".gz".is_ascii());
    }
    let ghost plain = |c: (PathBuf, ContentEncoding)| (path_bytes(c.0), c.1);
    let mut list: Vec<(PathBuf, ContentEncoding)> = Vec::new();
    if supported.brotli() {
        if let Some(p) = path_beside(path, ".br") {
            list.push((p, ContentEncoding::Brotli));
        }
    }
    let ghost br = if supported.takes_brotli() {
        candidate(beside(path_bytes(*path), ".br"@), ContentEncoding::Brotli)
    } else {
        Seq::empty()
    };
    assert(list@.map_values(plain) =~= br);
    if supported.gzip() {
        if let Some(p) = path_beside(path, ".gz") {
            list.push((p, ContentEncoding::Gzip));
        }
    }
    let ghost gz = if supported.takes_gzip() {
        candidate(beside(path_bytes(*path), ".gz"@), ContentEncoding::Gzip)
    } else {
        Seq::empty()
    };
    assert(list@.map_values(plain) =~= br + gz);
    list.push((clone_path(path), ContentEncoding::Identity));
    assert(list@.map_values(plain) =~= br + gz + seq![
        (path_bytes(*path), ContentEncoding::Identity),
    ]);
    list
}

/// Opening a path of these bytes may come out like this.
pub open spec fn may_open<E, F: Fn(&PathBuf) -> Probe<E>>(
    open: F,
    path: Seq<u8>,
    probe: Probe<E>,
) -> bool {
    exists|p: PathBuf| path_bytes(p) == path && #[trigger] call_ensures(open, (&p,), probe)
}

/// `seen` is a search of the candidates in which each outcome came of opening the candidate.
pub open spec fn searched<E, F: Fn(&PathBuf) -> Probe<E>>(
    open: F,
    candidates: Seq<(Seq<u8>, ContentEncoding)>,
    seen: Seq<Probe<E>>,
) -> bool {
    &&& is_search(candidates, seen)
    &&& forall|i: int| 0 <= i < seen.len() ==> may_open(open, candidates[i].0, #[trigger] seen[i])
}

/// Finds what answers for `path`. The candidates are opened in turn, none after the one that
/// answers.
pub fn find_file<E, F: Fn(&PathBuf) -> Probe<E>>(
    path: &PathBuf,
    supported: CompressionSupport,
    open: F,
) -> (r: Result<Option<Node>, E>)
    requires
        forall|p: &PathBuf| #[trigger] call_requires(open, (p,)),
    ensures
        exists|seen: Seq<Probe<E>>|
            #[trigger] searched(open, candidates(path_bytes(*path), supported), seen) && reports(
                r,
                verdict(candidates(path_bytes(*path), supported), seen),
            ),
        r matches Ok(Some(node)) ==> is_variant(
            path_bytes(*path),
            path_bytes(node.path),
            node.content_encoding,
        ),
{
    let list = list_candidates(path, supported);
    let ghost all = candidates(path_bytes(*path), supported);
    let ghost plain = |c: (PathBuf, ContentEncoding)| (path_bytes(c.0), c.1);
    let ghost mut seen: Seq<Probe<E>> = Seq::empty();
    let mut i: usize = 0;
    assert(all.last() == (path_bytes(*path), ContentEncoding::Identity));
    while i < list.len()
        invariant
            forall|p: &PathBuf| #[trigger] call_requires(open, (p,)),
            list@.map_values(plain) == all,
            forall|j: int|
                0 <= j < list@.len() ==> is_variant(
                    path_bytes(*path),
                    path_bytes((#[trigger] list@[j]).0),
                    list@[j].1,
                ),
            plain == (|c: (PathBuf, ContentEncoding)| (path_bytes(c.0), c.1)),
            all == candidates(path_bytes(*path), supported),
            all.len() > 0,
            i == seen.len(),
            i <= all.len(),
            forall|j: int| 0 <= j < i ==> !settles(all[j].1, #[trigger] seen[j]),
            forall|j: int| 0 <= j < i ==> may_open(open, all[j].0, #[trigger] seen[j]),
        decreases list.len() - i,
    {
        let encoding = list[i].1;
        let p = clone_path(&list[i].0);
        let probe = open(&p);
        assert(all[i as int] == plain(list@[i as int]));
        proof {
            assert(may_open(open, all[i as int].0, probe));
            seen = seen.push(probe);
        }
        let r = try_path(p, encoding, probe);
        match r {
            Ok(None) => {},
            _ => {
                assert(searched(open, all, seen));
                return r;
            },
        }
        i = i + 1;
    }
    assert(searched(open, all, seen));
    Ok(None)
}

/// A file to serve, and the headers to serve it with.
pub struct Resource {
    /// Where the file is.
    pub path: PathBuf,
    /// What is known of the file.
    pub metadata: FileMetadata,
    /// The headers of the response.
    pub headers: HeaderMap<HeaderValue>,
}

/// `headers` with those that tell of the encoding, and of its being negotiated.
pub open spec fn with_encoding(
    headers: Map<Seq<char>, Seq<Seq<u8>>>,
    encoding: ContentEncoding,
    auto_compress: bool,
) -> Map<Seq<char>, Seq<Seq<u8>>> {
    let encoded = match encoding_name(encoding) {
        Some(name) => headers.insert("content-encoding"@, seq![encode_utf8(name)]),
        None => headers,
    };
    if auto_compress {
        encoded.insert("vary"@, seq![encode_utf8("accept-encoding"@)])
    } else {
        encoded
    }
}

impl Node {
    /// Converts this node (which must represent a plain file) into a resource to serve.
    /// The caller supplies all headers but `Content-Encoding` and `Vary`.
    pub fn into_file_entity(self, headers: HeaderMap<HeaderValue>) -> (r: Result<
        Resource,
        NotAFile,
    >)
        requires
            at_most(header_fields(headers), NAME_LIMIT - 1),
        ensures
            match r {
                Ok(resource) => {
                    &&& self.metadata.is_file
                    &&& resource.path == self.path
                    &&& resource.metadata == self.metadata
                    &&& header_fields(resource.headers) == with_encoding(
                        header_fields(headers),
                        self.content_encoding,
                        self.auto_compress,
                    )
                },
                Err(error) => !self.metadata.is_file && error.0 == self.path,
            },
    {
        if !self.metadata.is_file {
            return Err(NotAFile(self.path));
        }
        proof {
            broadcast use vstd::string::is_ascii_spec_bytes;

            reveal_strlit("content-encoding");
            reveal_strlit("vary");
            reveal_strlit("accept-encoding");
            assert("accept-encoding".is_ascii());
        }
        let mut headers = headers;
        if let Some(value) = self.content_encoding.get_header_value() {
            insert_value(&mut headers, HeaderName::from_static("content-encoding"), value);
        }
        if self.auto_compress {
            insert_value(
                &mut headers,
                HeaderName::from_static("vary"),
                HeaderValue::from_static("accept-encoding"),
            );
        }
        Ok(Resource { path: self.path, metadata: self.metadata, headers })
    }

    /// Returns the (already fetched) metadata for this node.
    pub fn metadata(&self) -> (r: &FileMetadata)
        ensures
            *r == self.metadata,
    {
        &self.metadata
    }

    /// Returns true iff the content varies with the request's `Accept-Encoding` header value.
    pub fn encoding_varies(&self) -> (r: bool)
        ensures
            r == self.auto_compress,
    {
        self.auto_compress
    }
}

/// The answer of a file system in which opening each path comes out as `world` has it: the first
/// candidate that settles it.
pub open spec fn first_answer<E>(
    candidates: Seq<(Seq<u8>, ContentEncoding)>,
    world: spec_fn(Seq<u8>) -> Probe<E>,
) -> Verdict<E>
    decreases candidates.len(),
{
    if candidates.len() == 0 {
        Verdict::Missing
    } else if settles(candidates[0].1, world(candidates[0].0)) {
        judge(candidates[0].0, candidates[0].1, world(candidates[0].0))
    } else {
        first_answer(candidates.drop_first(), world)
    }
}

/// A search of a file system that does not change ends with the first candidate that settles it.
pub proof fn lemma_search_finds_first<E>(
    candidates: Seq<(Seq<u8>, ContentEncoding)>,
    seen: Seq<Probe<E>>,
    world: spec_fn(Seq<u8>) -> Probe<E>,
)
    requires
        is_search(candidates, seen),
        forall|i: int| 0 <= i < seen.len() ==> #[trigger] seen[i] == world(candidates[i].0),
    ensures
        verdict(candidates, seen) == first_answer(candidates, world),
    decreases candidates.len(),
{
    assert(seen[0] == world(candidates[0].0));
    let rest = candidates.drop_first();
    if settles(candidates[0].1, seen[0]) {
        assert(seen.len() == 1);
    } else if seen.len() == 1 {
        assert(rest.len() == 0);
        assert(first_answer(rest, world) == Verdict::<E>::Missing);
    } else {
        let tail = seen.drop_first();
        assert forall|i: int| 0 <= i < tail.len() implies #[trigger] tail[i] == world(
            rest[i].0,
        ) by {
            assert(seen[i + 1] == world(candidates[i + 1].0));
        }
        assert forall|i: int| 0 <= i < tail.len() - 1 implies !settles(
            rest[i].1,
            #[trigger] tail[i],
        ) by {
            assert(!settles(candidates[i + 1].1, seen[i + 1]));
        }
        assert(tail.last() == seen.last());
        lemma_search_finds_first(rest, tail, world);
    }
}

/// Whatever is found is stored in an encoding that the client takes, or not encoded; and what is
/// found encoded is a plain file.
pub proof fn lemma_found_is_supported<E>(
    path: Seq<u8>,
    supported: CompressionSupport,
    seen: Seq<Probe<E>>,
)
    requires
        is_search(candidates(path, supported), seen),
    ensures
        verdict(candidates(path, supported), seen) matches Verdict::Found(p, encoding, metadata)
            ==> {
            &&& encoding is Brotli ==> supported.takes_brotli() && metadata.is_file
            &&& encoding is Gzip ==> supported.takes_gzip() && metadata.is_file
            &&& encoding is Identity ==> p == path
        },
{
}

/// Where the client takes no compression, only the path itself is looked at.
pub proof fn lemma_uncompressed_alone(path: Seq<u8>)
    ensures
        candidates(path, CompressionSupport::Neither) == seq![(path, ContentEncoding::Identity)],
{
    assert(candidates(path, CompressionSupport::Neither) =~= seq![
        (path, ContentEncoding::Identity),
    ]);
}

/// A brotli copy that the client takes is served before everything else.
pub proof fn lemma_brotli_first<E>(
    path: Seq<u8>,
    supported: CompressionSupport,
    metadata: FileMetadata,
    world: spec_fn(Seq<u8>) -> Probe<E>,
)
    requires
        supported.takes_brotli(),
        beside(path, ".br"@) is Some,
        world(beside(path, ".br"@).unwrap()) == Probe::<E>::Opened(metadata),
        metadata.is_file,
    ensures
        first_answer(candidates(path, supported), world) == Verdict::<E>::Found(
            beside(path, ".br"@).unwrap(),
            ContentEncoding::Brotli,
            metadata,
        ),
{
    assert(candidates(path, supported)[0] == (
        beside(path, ".br"@).unwrap(),
        ContentEncoding::Brotli,
    ));
}

/// A gzip copy that the client takes is served where there is no usable brotli copy that it takes.
pub proof fn lemma_gzip_second<E>(
    path: Seq<u8>,
    supported: CompressionSupport,
    metadata: FileMetadata,
    world: spec_fn(Seq<u8>) -> Probe<E>,
)
    requires
        supported.takes_gzip(),
        beside(path, ".gz"@) is Some,
        supported.takes_brotli() ==> !settles(
            ContentEncoding::Brotli,
            world(beside(path, ".br"@).unwrap()),
        ),
        world(beside(path, ".gz"@).unwrap()) == Probe::<E>::Opened(metadata),
        metadata.is_file,
    ensures
        first_answer(candidates(path, supported), world) == Verdict::<E>::Found(
            beside(path, ".gz"@).unwrap(),
            ContentEncoding::Gzip,
            metadata,
        ),
{
    let all = candidates(path, supported);
    let gz = (beside(path, ".gz"@).unwrap(), ContentEncoding::Gzip);
    reveal_with_fuel(first_answer, 2);
    if supported.takes_brotli() {
        assert(all.drop_first()[0] == gz);
    } else {
        assert(all[0] == gz);
    }
}

/// The path itself is served where there is no usable compressed copy that the client takes.
pub proof fn lemma_plain_last<E>(
    path: Seq<u8>,
    supported: CompressionSupport,
    world: spec_fn(Seq<u8>) -> Probe<E>,
)
    requires
        supported.takes_brotli() && beside(path, ".br"@) is Some ==> !settles(
            ContentEncoding::Brotli,
            world(beside(path, ".br"@).unwrap()),
        ),
        supported.takes_gzip() && beside(path, ".gz"@) is Some ==> !settles(
            ContentEncoding::Gzip,
            world(beside(path, ".gz"@).unwrap()),
        ),
    ensures
        first_answer(candidates(path, supported), world) == judge(
            path,
            ContentEncoding::Identity,
            world(path),
        ),
{
    let all = candidates(path, supported);
    reveal_with_fuel(first_answer, 4);
    assert(all.last() == (path, ContentEncoding::Identity));
    if all.len() == 1 {
        assert(all[0] == all.last());
        assert(all.drop_first().len() == 0);
    } else if all.len() == 2 {
        assert(all.drop_first()[0] == all.last());
        assert(all.drop_first().drop_first().len() == 0);
    } else {
        assert(all.drop_first()[0] == all[1]);
        assert(all.drop_first().drop_first()[0] == all.last());
        assert(all.drop_first().drop_first().drop_first().len() == 0);
    }
}

/// The response varies with `Accept-Encoding` where encodings are negotiated, and says in which
/// encoding it is; the other headers stay as they were.
pub proof fn lemma_encoding_headers(
    headers: Map<Seq<char>, Seq<Seq<u8>>>,
    encoding: ContentEncoding,
    auto_compress: bool,
    name: Seq<char>,
)
    requires
        name != "content-encoding"@,
        name != "vary"@,
    ensures
        ({
            let sent = with_encoding(headers, encoding, auto_compress);
            &&& auto_compress ==> sent.contains_pair(
                "vary"@,
                seq![encode_utf8("accept-encoding"@)],
            )
            &&& encoding_name(encoding) matches Some(coding) ==> sent.contains_pair(
                "content-encoding"@,
                seq![encode_utf8(coding)],
            )
            &&& sent.contains_key(name) == headers.contains_key(name)
            &&& headers.contains_key(name) ==> sent[name] == headers[name]
        }),
        encoding is Identity && !auto_compress ==> with_encoding(headers, encoding, auto_compress)
            == headers,
{
    reveal_strlit("content-encoding");
    reveal_strlit("vary");
    assert("content-encoding"@.len() != "vary"@.len());
}

/// The candidates for a path: the path itself last; before it a gzip copy, and first a brotli copy,
/// each exactly where the client takes it and the path ends in a name.
pub proof fn lemma_listed_candidates(
    path: &PathBuf,
    supported: CompressionSupport,
    r: Vec<(PathBuf, ContentEncoding)>,
)
    requires
        call_ensures(list_candidates, (path, supported), r),
    ensures
        ({
            let full = path_bytes(*path);
            let br = supported.takes_brotli() && final_component(full) is Some;
            let gz = supported.takes_gzip() && final_component(full) is Some;
            let first: int = if br {
                1
            } else {
                0
            };
            let second: int = if gz {
                1
            } else {
                0
            };
            &&& r@.len() == first + second + 1
            &&& path_bytes(r@.last().0) == full && r@.last().1 is Identity
            &&& br ==> is_copy(full, path_bytes(r@[0].0), ".br"@) && r@[0].1 is Brotli
            &&& gz ==> is_copy(full, path_bytes(r@[first].0), ".gz"@) && r@[first].1 is Gzip
        }),
{
    let full = path_bytes(*path);
    let all = candidates(full, supported);
    let plain = |c: (PathBuf, ContentEncoding)| (path_bytes(c.0), c.1);
    assert(r@.map_values(plain) == all);
    assert(r@.len() == all.len());
    assert(plain(r@[r@.len() - 1]) == all[r@.len() - 1]);
    assert(all.last() == (full, ContentEncoding::Identity));
    if all.len() > 1 {
        assert(plain(r@[0]) == all[0]);
        assert(plain(r@[1]) == all[1]);
    }
}

/// What is made of a candidate once it was opened: a plain file is taken, a directory only where it
/// is the path itself, and nothing else; an error is handed on.
pub proof fn lemma_tried<E>(
    path: PathBuf,
    encoding: ContentEncoding,
    probe: Probe<E>,
    r: Result<Option<Node>, E>,
)
    requires
        call_ensures(try_path::<E>, (path, encoding, probe), r),
    ensures
        match probe {
            Probe::NotFound => r matches Ok(node) && node is None,
            Probe::Failed(e) => r matches Err(error) && error == e,
            Probe::Opened(metadata) => if metadata.is_file || (metadata.is_dir
                && encoding is Identity) {
                r matches Ok(Some(node)) && path_bytes(node.path) == path_bytes(path)
                    && node.content_encoding == encoding && node.metadata == metadata
                    && !node.auto_compress
            } else {
                r matches Ok(node) && node is None
            },
        },
{
}

/// A node makes a resource exactly where it is a plain file, and tells what is known of it.
pub proof fn lemma_node(
    node: &Node,
    headers: HeaderMap<HeaderValue>,
    r: Result<Resource, NotAFile>,
    metadata: &FileMetadata,
    varies: bool,
)
    requires
        call_ensures(Node::into_file_entity, (*node, headers), r),
        call_ensures(Node::metadata, (node,), metadata),
        call_ensures(Node::encoding_varies, (node,), varies),
    ensures
        match r {
            Ok(resource) => node.metadata.is_file && resource.path == node.path && resource.metadata
                == node.metadata && header_fields(resource.headers) == with_encoding(
                header_fields(headers),
                node.content_encoding,
                node.auto_compress,
            ),
            Err(error) => !node.metadata.is_file && error.0 == node.path,
        },
        *metadata == node.metadata,
        varies == node.auto_compress,
{
}

/// A compressed file is sent with the name of its coding, any other without one.
pub proof fn lemma_header_value(encoding: &ContentEncoding, r: Option<HeaderValue>)
    requires
        call_ensures(ContentEncoding::get_header_value, (encoding,), r),
    ensures
        encoding is Identity <==> r is None,
        encoding is Brotli ==> value_bytes(r.unwrap()) == encode_utf8("br"@),
        encoding is Gzip ==> value_bytes(r.unwrap()) == encode_utf8("gzip"@),
{
}

/// What is no file is named in words, by its path.
pub proof fn lemma_message(error: &NotAFile, r: String)
    requires
        call_ensures(NotAFile::message, (error,), r),
    ensures
        "Path is not a file: "@.is_prefix_of(r@),
        r@.skip("Path is not a file: "@.len() as int) == displayed(path_bytes(error.0)),
{
    let start = "Path is not a file: "@;
    assert(r@.skip(start.len() as int) =~= displayed(path_bytes(error.0)));
}

/// The copy of a file is called like the file with the suffix behind: where the path is written as
/// a directory, one separator and a name, the path of the copy is that path and the suffix.
pub proof fn lemma_copy_name(
    path: Seq<u8>,
    copy: Seq<u8>,
    suffix: Seq<char>,
    parent: Seq<u8>,
    name: Seq<u8>,
)
    requires
        is_copy(path, copy, suffix),
        path == parent.push(47u8) + name,
        parent.len() > 0,
        parent.last() != 47,
        parent.last() != 46,
        name.len() > 0,
        !name.contains(47u8),
        name != seq![46u8],
        name != seq![46u8, 46u8],
    ensures
        copy == path + encode_utf8(suffix),
{
    lemma_name_behind(parent.push(47u8), name);
    lemma_final_component(path);
    assert(lies_in(path, parent, name));
}

/// Any node can be made a resource, with all headers that a map has room for but one.
pub proof fn lemma_room_for_headers(node: Node, headers: HeaderMap<HeaderValue>)
    requires
        at_most(header_fields(headers), 6552),
    ensures
        call_requires(Node::into_file_entity, (node, headers)),
{
}

} // verus!
