//! Serves files from a local directory.

use crate::compression::{detect_compression_support, request_codings, CompressionSupport};
use crate::content_type::{
    choose_content_type, chosen_type, guess_content_type, guessed_type, mime_guess_type,
    table_type, TypeSource,
};
use crate::headers::{
    at_most, clone_headers, header_fields, insert_value, name_text, no_fields, value_bytes,
};
use crate::node::{
    beside, candidates, find_file, first_answer, is_copy, is_variant, lemma_brotli_first,
    lemma_gzip_second, lemma_plain_last, lemma_search_finds_first, lemma_uncompressed_alone,
    may_open, searched, verdict, with_encoding, ContentEncoding, FileMetadata, Probe, Resource,
    Verdict,
};
use crate::paths::{
    depth, extension_of, final_component, has_name_at, has_parent_at, is_absolute, is_parent,
    join_path, lemma_faults, lemma_final_component, lemma_has_steps, lemma_last_step,
    lemma_named_last, lemma_no_step_up, lemma_steps_join, lemma_valid_path_stays_below, lies_below,
    path_bytes, path_extension, path_fault, steps, takes_steps, validate_path, with_separator,
};
use crate::text::{after_prefix, split, strip_text};
use http::{HeaderMap, HeaderName, HeaderValue};
use std::path::PathBuf;
use vstd::hash_map::StringHashMap;
use vstd::prelude::*;
use vstd::string::StringSliceAdditionalSpecFns;
use vstd::utf8::encode_utf8;

pub use crate::node::NotAFile;

verus! {

/// The largest number of common headers.
pub const COMMON_LIMIT: usize = 6550;

/// How a directory is served.
#[verifier::ext_equal]
pub struct Config {
    /// Whether compressed copies of files are served.
    pub auto_compress: bool,
    /// The directory, by the bytes of its path.
    pub dirpath: Seq<u8>,
    /// What is taken off the front of a request path.
    pub strip_prefix: Option<Seq<char>>,
    /// The content types of some extensions.
    pub known_extensions: Option<Map<Seq<char>, Seq<u8>>>,
    /// The content type of unknown extensions.
    pub default_content_type: Seq<u8>,
    /// The headers of every response.
    pub common_headers: Map<Seq<char>, Seq<Seq<u8>>>,
    /// Where other content types come from.
    pub type_source: TypeSource,
}

/// The pairs as a map; of two pairs of one extension the later counts.
pub open spec fn extension_map(pairs: Seq<(String, HeaderValue)>) -> Map<Seq<char>, Seq<u8>>
    decreases pairs.len(),
{
    if pairs.len() == 0 {
        Map::empty()
    } else {
        extension_map(pairs.drop_last()).insert(pairs.last().0@, value_bytes(pairs.last().1))
    }
}

/// The values of a table of extensions, by their bytes.
pub open spec fn type_bytes(types: Option<StringHashMap<HeaderValue>>) -> Option<
    Map<Seq<char>, Seq<u8>>,
> {
    match types {
        Some(table) => Some(table@.map_values(|v: HeaderValue| value_bytes(v))),
        None => None,
    }
}

/// The text of a prefix.
pub open spec fn prefix_text(prefix: Option<String>) -> Option<Seq<char>> {
    match prefix {
        Some(text) => Some(text@),
        None => None,
    }
}

/// A builder for [`ServedDir`].
pub struct ServedDirBuilder {
    dirpath: PathBuf,
    auto_compress: bool,
    strip_prefix: Option<String>,
    known_extensions: Option<StringHashMap<HeaderValue>>,
    default_content_type: HeaderValue,
    common_headers: HeaderMap<HeaderValue>,
    type_source: TypeSource,
}

/// Selects files and headers for request paths within a directory.
pub struct ServedDir {
    auto_compress: bool,
    dirpath: PathBuf,
    strip_prefix: Option<String>,
    known_extensions: Option<StringHashMap<HeaderValue>>,
    default_content_type: HeaderValue,
    common_headers: HeaderMap<HeaderValue>,
    type_source: TypeSource,
}

impl View for ServedDirBuilder {
    type V = Config;

    closed spec fn view(&self) -> Config {
        Config {
            auto_compress: self.auto_compress,
            dirpath: path_bytes(self.dirpath),
            strip_prefix: prefix_text(self.strip_prefix),
            known_extensions: type_bytes(self.known_extensions),
            default_content_type: value_bytes(self.default_content_type),
            common_headers: header_fields(self.common_headers),
            type_source: self.type_source,
        }
    }
}

impl View for ServedDir {
    type V = Config;

    closed spec fn view(&self) -> Config {
        Config {
            auto_compress: self.auto_compress,
            dirpath: path_bytes(self.dirpath),
            strip_prefix: prefix_text(self.strip_prefix),
            known_extensions: type_bytes(self.known_extensions),
            default_content_type: value_bytes(self.default_content_type),
            common_headers: header_fields(self.common_headers),
            type_source: self.type_source,
        }
    }
}

/// The configuration that a builder starts with.
pub open spec fn default_config(dirpath: Seq<u8>) -> Config {
    Config {
        auto_compress: true,
        dirpath,
        strip_prefix: None,
        known_extensions: None,
        default_content_type: encode_utf8("application/octet-stream"@),
        common_headers: no_fields(),
        type_source: TypeSource::Table,
    }
}

impl ServedDirBuilder {
    #[verifier::type_invariant]
    spec fn few_headers(&self) -> bool {
        at_most(header_fields(self.common_headers), COMMON_LIMIT as int)
    }

    fn new(dirpath: PathBuf) -> (r: Self)
        ensures
            r@ == default_config(path_bytes(dirpath)),
    {
        proof {
            broadcast use vstd::string::is_ascii_spec_bytes;

            reveal_strlit("application/octet-stream");
            assert("application/octet-stream".is_ascii());
        }
        ServedDirBuilder {
            dirpath,
            auto_compress: true,
            strip_prefix: None,
            known_extensions: None,
            default_content_type: HeaderValue::from_static("application/octet-stream"),
            common_headers: HeaderMap::new(),
            type_source: TypeSource::Table,
        }
    }

    /// Sets whether to automatically serve compressed versions of files.
    /// Defaults to `true`.
    pub fn auto_compress(self, auto_compress: bool) -> (r: Self)
        ensures
            r@ == (Config { auto_compress, ..self@ }),
    {
        proof {
            use_type_invariant(&self);
        }
        ServedDirBuilder { auto_compress, ..self }
    }

    /// Sets a prefix to strip from the request path.
    pub fn strip_prefix(self, prefix: String) -> (r: Self)
        ensures
            r@ == (Config { strip_prefix: Some(prefix@), ..self@ }),
    {
        proof {
            use_type_invariant(&self);
        }
        ServedDirBuilder { strip_prefix: Some(prefix), ..self }
    }

    /// Sets the content types of file extensions, as pairs of an extension and its type.
    pub fn known_extensions(self, extensions: Vec<(String, HeaderValue)>) -> (r: Self)
        ensures
            r@ == (Config { known_extensions: Some(extension_map(extensions@)), ..self@ }),
    {
        proof {
            use_type_invariant(&self);
        }
        let ghost pairs = extensions@;
        let mut table: StringHashMap<HeaderValue> = StringHashMap::new();
        let mut i: usize = 0;
        assert(pairs.take(0) =~= Seq::empty());
        assert(table@.map_values(|v: HeaderValue| value_bytes(v)) =~= Map::empty());
        while i < extensions.len()
            invariant
                pairs == extensions@,
                i <= pairs.len(),
                table@.map_values(|v: HeaderValue| value_bytes(v)) == extension_map(
                    pairs.take(i as int),
                ),
            decreases pairs.len() - i,
        {
            let ghost before = table@;
            let ext = extensions[i].0.clone();
            let value = extensions[i].1.clone();
            table.insert(ext, value);
            i = i + 1;
            assert(pairs.take(i as int).drop_last() =~= pairs.take(i - 1));
            assert(table@.map_values(|v: HeaderValue| value_bytes(v)) =~= before.map_values(
                |v: HeaderValue| value_bytes(v),
            ).insert(pairs[i - 1].0@, value_bytes(pairs[i - 1].1)));
        }
        assert(pairs.take(i as int) =~= pairs);
        ServedDirBuilder { known_extensions: Some(table), ..self }
    }

    /// Sets the default content type to use when the extension is unknown.
    /// Defaults to `application/octet-stream`.
    pub fn default_content_type(self, content_type: HeaderValue) -> (r: Self)
        ensures
            r@ == (Config { default_content_type: value_bytes(content_type), ..self@ }),
    {
        proof {
            use_type_invariant(&self);
        }
        ServedDirBuilder { default_content_type: content_type, ..self }
    }

    /// Sets where the content types of extensions come from that are not configured.
    /// Defaults to the built-in table.
    pub fn type_source(self, type_source: TypeSource) -> (r: Self)
        ensures
            r@ == (Config { type_source, ..self@ }),
    {
        proof {
            use_type_invariant(&self);
        }
        ServedDirBuilder { type_source, ..self }
    }

    /// Adds a common header to be added to all successful responses.
    ///
    /// The header will be added to the resource if the `ServedDir` returns one, but
    /// will not be recorded anywhere in an error response.
    pub fn common_header(self, name: HeaderName, value: HeaderValue) -> (r: Self)
        requires
            self@.common_headers.insert(name_text(name), seq![value_bytes(value)]).dom().len()
                <= COMMON_LIMIT,
        ensures
            r@ == (Config {
                common_headers: self@.common_headers.insert(
                    name_text(name),
                    seq![value_bytes(value)],
                ),
                ..self@
            }),
    {
        proof {
            use_type_invariant(&self);
        }
        let mut common_headers = self.common_headers;
        insert_value(&mut common_headers, name, value);
        ServedDirBuilder {
            dirpath: self.dirpath,
            auto_compress: self.auto_compress,
            strip_prefix: self.strip_prefix,
            known_extensions: self.known_extensions,
            default_content_type: self.default_content_type,
            common_headers,
            type_source: self.type_source,
        }
    }

    /// Builds the [`ServedDir`].
    pub fn build(self) -> (r: ServedDir)
        ensures
            r@ == self@,
    {
        proof {
            use_type_invariant(&self);
        }
        ServedDir {
            dirpath: self.dirpath,
            auto_compress: self.auto_compress,
            strip_prefix: self.strip_prefix,
            known_extensions: self.known_extensions,
            default_content_type: self.default_content_type,
            common_headers: self.common_headers,
            type_source: self.type_source,
        }
    }
}

impl ServedDir {
    #[verifier::type_invariant]
    spec fn few_headers(&self) -> bool {
        at_most(header_fields(self.common_headers), COMMON_LIMIT as int)
    }

    /// Returns a builder for `ServedDir`.
    pub fn builder(path: PathBuf) -> (r: ServedDirBuilder)
        ensures
            r@ == default_config(path_bytes(path)),
    {
        ServedDirBuilder::new(path)
    }

    /// Returns the content type of the file at a path, by its extension.
    pub fn get_content_type(&self, path: &PathBuf) -> (r: HeaderValue)
        ensures
            value_bytes(r) == content_type_of(self@, path_bytes(*path)),
    {
        let extension = match path_extension(path) {
            Some(text) => text,
            None => String::new(),
        };
        let ext = extension.as_str();
        assert(ext@ =~= extension_of(path_bytes(*path)));
        let configured = match &self.known_extensions {
            Some(table) => table.get(ext),
            None => None,
        };
        choose_content_type(
            configured,
            guess_content_type(self.type_source, ext),
            &self.default_content_type,
        )
    }

    /// Selects the file that answers a request, and the headers to serve it with. `open` opens a
    /// path.
    ///
    /// The `Accept-Encoding` request header is used to determine whether to serve the file
    /// compressed if possible. If an encoding is requested, and `auto_compress` is enabled, this
    /// method will look for a file with the same name but a `.br` or `.gz` suffix. If found, it
    /// will serve that file instead of the primary file. If no encoding is requested,
    /// `auto_compress` is disabled, or the file is not found, the primary file will be served.
    /// For the directory itself no compressed file is looked for: it would lie outside.
    ///
    /// This method will return `GetError::NotFound` if the file is not found. It will return
    /// `GetError::InvalidInput` if the path is invalid.
    pub fn get<E, F: Fn(&PathBuf) -> Probe<E>>(
        &self,
        path: &str,
        req_hdrs: &HeaderMap<HeaderValue>,
        open: F,
    ) -> (r: Result<Resource, GetError<E>>)
        requires
            forall|p: &PathBuf| #[trigger] call_requires(open, (p,)),
        ensures
            match route(self@, path@) {
                Route::NoPrefix => r matches Err(GetError::NotFound(m)) && m@
                    == "invalid path, prefix not found"@,
                Route::Invalid(fault) => r matches Err(GetError::InvalidInput(m)) && m@ == fault,
                Route::To(full) => served(
                    open,
                    r,
                    self@,
                    full,
                    candidates(full, preferred(self@, header_fields(*req_hdrs), path@)),
                ),
            },
    {
        proof {
            use_type_invariant(self);
            reveal_strlit("content-type");
        }
        let rel = match &self.strip_prefix {
            Some(prefix) => match strip_text(path, prefix.as_str()) {
                Some(rest) => rest,
                None => {
                    return Err(GetError::NotFound("invalid path, prefix not found"));
                },
            },
            None => path,
        };
        if let Err(fault) = validate_path(rel) {
            return Err(GetError::InvalidInput(fault));
        }
        let full_path = join_path(&self.dirpath, rel);
        let supported = if self.auto_compress && takes_steps(rel) {
            detect_compression_support(req_hdrs)
        } else {
            CompressionSupport::Neither
        };
        let content_type = self.get_content_type(&full_path);
        let ghost full = path_bytes(full_path);
        let found = find_file(&full_path, supported, open);
        assert(route(self@, path@) == Route::To(full));
        let mut node = match found {
            Err(e) => {
                return Err(GetError::Failed(e));
            },
            Ok(None) => {
                return Err(GetError::NotFound("file not found"));
            },
            Ok(Some(node)) => node,
        };
        node.auto_compress = self.auto_compress;
        let mut headers = clone_headers(&self.common_headers);
        insert_value(&mut headers, HeaderName::from_static("content-type"), content_type);
        match node.into_file_entity(headers) {
            Ok(resource) => Ok(resource),
            Err(error) => Err(GetError::Other(error)),
        }
    }
}

/// Why a request cannot be answered with a file.
pub enum GetError<E> {
    /// There is no such file.
    NotFound(&'static str),
    /// The path is not one that may be asked for.
    InvalidInput(&'static str),
    /// There is something at the path, but no plain file.
    Other(NotAFile),
    /// A path could not be opened.
    Failed(E),
}

/// Where a request path leads.
pub enum Route {
    /// Nowhere: it lacks the prefix.
    NoPrefix,
    /// Nowhere: there is something wrong with it.
    Invalid(Seq<char>),
    /// To a path of these bytes.
    To(Seq<u8>),
}

/// The path that a request asks for, where it has the prefix.
pub open spec fn stripped(config: Config, path: Seq<char>) -> Option<Seq<char>> {
    match config.strip_prefix {
        Some(prefix) => after_prefix(path, prefix),
        None => Some(path),
    }
}

/// Where a request path leads.
pub open spec fn route(config: Config, path: Seq<char>) -> Route {
    match stripped(config, path) {
        None => Route::NoPrefix,
        Some(rel) => match path_fault(encode_utf8(rel)) {
            Some(fault) => Route::Invalid(fault),
            None => Route::To(with_separator(config.dirpath) + encode_utf8(rel)),
        },
    }
}

/// The request path leads to something in the directory, and not to the directory itself.
pub open spec fn asks_for_entry(config: Config, path: Seq<char>) -> bool {
    match stripped(config, path) {
        Some(rel) => steps(encode_utf8(rel)).len() > 0,
        None => false,
    }
}

/// The encodings that may be served. A copy of the directory itself would lie outside of it, so
/// none is looked for.
pub open spec fn preferred(
    config: Config,
    request: Map<Seq<char>, Seq<Seq<u8>>>,
    path: Seq<char>,
) -> CompressionSupport {
    if config.auto_compress && asks_for_entry(config, path) {
        request_codings(request)
    } else {
        CompressionSupport::Neither
    }
}

/// The content type configured for an extension, if there is one.
pub open spec fn configured_type(config: Config, ext: Seq<char>) -> Option<Seq<u8>> {
    match config.known_extensions {
        Some(table) => if table.contains_key(ext) {
            Some(table[ext])
        } else {
            None
        },
        None => None,
    }
}

/// The content type of the file at a path.
pub open spec fn content_type_of(config: Config, path: Seq<u8>) -> Seq<u8> {
    let ext = extension_of(path);
    chosen_type(
        configured_type(config, ext),
        guessed_type(config.type_source, ext),
        config.default_content_type,
    )
}

/// The headers of a response for the path `full`.
pub open spec fn response_headers(config: Config, full: Seq<u8>, encoding: ContentEncoding) -> Map<
    Seq<char>,
    Seq<Seq<u8>>,
> {
    with_encoding(
        config.common_headers.insert("content-type"@, seq![content_type_of(config, full)]),
        encoding,
        config.auto_compress,
    )
}

/// The result of a request for the path `full` is as the verdict of the search has it.
pub open spec fn answers<E>(
    r: Result<Resource, GetError<E>>,
    config: Config,
    full: Seq<u8>,
    verdict: Verdict<E>,
) -> bool {
    match verdict {
        Verdict::Missing => r matches Err(GetError::NotFound(m)) && m@ == "file not found"@,
        Verdict::Failed(e) => r matches Err(GetError::Failed(error)) && error == e,
        Verdict::Found(path, encoding, metadata) => {
            &&& is_variant(full, path, encoding)
            &&& if metadata.is_file {
                &&& r matches Ok(resource)
                &&& path_bytes(resource.path) == path
                &&& resource.metadata == metadata
                &&& header_fields(resource.headers) == response_headers(config, full, encoding)
            } else {
                r matches Err(GetError::Other(error)) && path_bytes(error.0) == path
            }
        },
    }
}

/// The result of a request for the path `full` comes of a search of the candidates.
pub open spec fn served<E, F: Fn(&PathBuf) -> Probe<E>>(
    open: F,
    r: Result<Resource, GetError<E>>,
    config: Config,
    full: Seq<u8>,
    candidates: Seq<(Seq<u8>, ContentEncoding)>,
) -> bool {
    exists|seen: Seq<Probe<E>>| #[trigger]
        searched(open, candidates, seen) && answers(r, config, full, verdict(candidates, seen))
}

/// In a file system that does not change, in which opening each path comes out as `world` has it, a
/// request is answered by the first candidate that settles it.
pub proof fn lemma_served_in_world<E, F: Fn(&PathBuf) -> Probe<E>>(
    open: F,
    r: Result<Resource, GetError<E>>,
    config: Config,
    full: Seq<u8>,
    candidates: Seq<(Seq<u8>, ContentEncoding)>,
    world: spec_fn(Seq<u8>) -> Probe<E>,
)
    requires
        served(open, r, config, full, candidates),
        forall|p: PathBuf, probe: Probe<E>| #[trigger]
            call_ensures(open, (&p,), probe) ==> probe == world(path_bytes(p)),
    ensures
        answers(r, config, full, first_answer(candidates, world)),
{
    let seen = choose|seen: Seq<Probe<E>>| #[trigger]
        searched(open, candidates, seen) && answers(r, config, full, verdict(candidates, seen));
    assert forall|i: int| 0 <= i < seen.len() implies #[trigger] seen[i] == world(
        candidates[i].0,
    ) by {
        assert(may_open(open, candidates[i].0, seen[i]));
    }
    lemma_search_finds_first(candidates, seen, world);
}

/// A request never leads out of the directory: the path it leads to is the directory's path, a
/// separator where it needs one, and a path that never leaves the directory that it starts in.
pub proof fn lemma_route_stays_below(config: Config, path: Seq<char>, n: int)
    requires
        route(config, path) is To,
        stripped(config, path) is Some,
        0 <= n <= split(encode_utf8(stripped(config, path).unwrap()), 47).len(),
    ensures
        ({
            let rel = encode_utf8(stripped(config, path).unwrap());
            &&& route(config, path)->To_0 == with_separator(config.dirpath) + rel
            &&& !is_absolute(rel)
            &&& depth(split(rel, 47).take(n)) >= 0
        }),
{
    lemma_valid_path_stays_below(encode_utf8(stripped(config, path).unwrap()), n);
}

/// What may answer a request lies below the directory, compressed copies included, unless it is the
/// directory itself that was asked for.
pub proof fn lemma_variant_lies_below(
    config: Config,
    path: Seq<char>,
    found: Seq<u8>,
    encoding: ContentEncoding,
)
    requires
        route(config, path) is To,
        is_variant(route(config, path)->To_0, found, encoding),
        asks_for_entry(config, path),
    ensures
        lies_below(config.dirpath, found),
{
    let rel = encode_utf8(stripped(config, path).unwrap());
    let full = route(config, path)->To_0;
    let dir = config.dirpath;
    lemma_steps_join(dir, rel);
    lemma_last_step(full);
    lemma_final_component(full);
    let n = steps(dir).len();
    assert forall|i: int| n <= i < steps(found).len() implies !is_parent(
        #[trigger] steps(found)[i],
    ) by {
        if i < steps(full).len() - 1 || encoding is Identity {
            lemma_no_step_up(rel, i - n);
            assert(steps(full)[i] == steps(rel)[i - n]);
        } else {
            lemma_final_component(found);
            lemma_last_step(found);
        }
    }
    assert(steps(found).take(n as int) =~= steps(dir));
}

/// Whatever is served lies below the directory, provided that the directory is one: that opening it
/// does not show a plain file. So a request for the directory itself is never served.
pub proof fn lemma_served_lies_below<E, F: Fn(&PathBuf) -> Probe<E>>(
    open: F,
    r: Result<Resource, GetError<E>>,
    config: Config,
    request: Map<Seq<char>, Seq<Seq<u8>>>,
    path: Seq<char>,
)
    requires
        route(config, path) is To,
        served(
            open,
            r,
            config,
            route(config, path)->To_0,
            candidates(route(config, path)->To_0, preferred(config, request, path)),
        ),
        forall|p: PathBuf, metadata: FileMetadata|
            steps(path_bytes(p)) == steps(config.dirpath) && #[trigger] call_ensures(
                open,
                (&p,),
                Probe::Opened(metadata),
            ) ==> !metadata.is_file,
    ensures
        r matches Ok(resource) ==> asks_for_entry(config, path) && lies_below(
            config.dirpath,
            path_bytes(resource.path),
        ),
{
    let full = route(config, path)->To_0;
    let all = candidates(full, preferred(config, request, path));
    let seen = choose|seen: Seq<Probe<E>>| #[trigger]
        searched(open, all, seen) && answers(r, config, full, verdict(all, seen));
    if let Verdict::Found(found, encoding, metadata) = verdict(all, seen) {
        if asks_for_entry(config, path) {
            lemma_variant_lies_below(config, path, found, encoding);
        } else {
            let rel = encode_utf8(stripped(config, path).unwrap());
            lemma_uncompressed_alone(full);
            lemma_steps_join(config.dirpath, rel);
            assert(steps(full) =~= steps(config.dirpath));
            assert(may_open(open, full, seen[0]));
            let p = choose|p: PathBuf|
                path_bytes(p) == full && #[trigger] call_ensures(open, (&p,), seen[0]);
            assert(seen[0] == Probe::<E>::Opened(metadata));
        }
    }
}

/// With `auto_compress` off, `Accept-Encoding` does not matter: only the path itself is looked at.
pub proof fn lemma_no_negotiation(
    config: Config,
    request: Map<Seq<char>, Seq<Seq<u8>>>,
    path: Seq<char>,
    full: Seq<u8>,
)
    requires
        !config.auto_compress,
    ensures
        candidates(full, preferred(config, request, path)) == seq![
            (full, ContentEncoding::Identity),
        ],
{
    lemma_uncompressed_alone(full);
}

/// Every response has a content type; the common headers are on it, but for those that tell of
/// the content.
pub proof fn lemma_common_headers(
    config: Config,
    full: Seq<u8>,
    encoding: ContentEncoding,
    name: Seq<char>,
)
    requires
        name != "content-type"@,
        name != "content-encoding"@,
        name != "vary"@,
    ensures
        ({
            let sent = response_headers(config, full, encoding);
            &&& sent.contains_pair("content-type"@, seq![content_type_of(config, full)])
            &&& sent.contains_key(name) == config.common_headers.contains_key(name)
            &&& config.common_headers.contains_key(name) ==> sent[name]
                == config.common_headers[name]
        }),
{
    reveal_strlit("content-type");
    reveal_strlit("content-encoding");
    reveal_strlit("vary");
    assert("content-type"@.len() == 12);
}

/// The map holds what the last pair of each extension says, and nothing else.
proof fn lemma_extension_map(pairs: Seq<(String, HeaderValue)>, i: int, ext: Seq<char>)
    ensures
        0 <= i < pairs.len() && (forall|j: int|
            i < j < pairs.len() ==> (#[trigger] pairs[j]).0@ != pairs[i].0@) ==> extension_map(
            pairs,
        ).contains_pair(pairs[i].0@, value_bytes(pairs[i].1)),
        extension_map(pairs).contains_key(ext) ==> exists|j: int|
            0 <= j < pairs.len() && (#[trigger] pairs[j]).0@ == ext,
    decreases pairs.len(),
{
    if pairs.len() > 0 {
        let shorter = pairs.drop_last();
        let n = pairs.len() - 1;
        lemma_extension_map(shorter, i, ext);
        if 0 <= i < n && (forall|j: int|
            i < j < pairs.len() ==> (#[trigger] pairs[j]).0@ != pairs[i].0@) {
            assert forall|j: int| i < j < shorter.len() implies (#[trigger] shorter[j]).0@
                != shorter[i].0@ by {
                assert(pairs[j].0@ != pairs[i].0@);
            }
            assert(pairs[n].0@ != pairs[i].0@);
        }
        if extension_map(pairs).contains_key(ext) {
            if ext == pairs[n].0@ {
                assert(pairs[n].0@ == ext);
            } else {
                let j = choose|j: int| 0 <= j < shorter.len() && (#[trigger] shorter[j]).0@ == ext;
                assert(pairs[j].0@ == ext);
            }
        }
    }
}

/// Where an extension is listed, one of its pairs is the last.
proof fn lemma_last_pair(pairs: Seq<(String, HeaderValue)>, i: int) -> (last: int)
    requires
        0 <= i < pairs.len(),
    ensures
        i <= last < pairs.len(),
        pairs[last].0@ == pairs[i].0@,
        forall|j: int| last < j < pairs.len() ==> (#[trigger] pairs[j]).0@ != pairs[last].0@,
    decreases pairs.len() - i,
{
    if exists|j: int| i < j < pairs.len() && (#[trigger] pairs[j]).0@ == pairs[i].0@ {
        let j = choose|j: int| i < j < pairs.len() && (#[trigger] pairs[j]).0@ == pairs[i].0@;
        lemma_last_pair(pairs, j)
    } else {
        i
    }
}

/// Every extension in a list of pairs is configured with the type of the last pair that has it, and
/// no other extension is; the other settings stay.
pub proof fn lemma_known_extensions(
    builder: ServedDirBuilder,
    pairs: Vec<(String, HeaderValue)>,
    r: ServedDirBuilder,
    i: int,
    ext: Seq<char>,
)
    requires
        call_ensures(ServedDirBuilder::known_extensions, (builder, pairs), r),
    ensures
        r@.known_extensions matches Some(table) && {
            &&& 0 <= i < pairs@.len() && (forall|j: int|
                i < j < pairs@.len() ==> (#[trigger] pairs@[j]).0@ != pairs@[i].0@)
                ==> table.contains_key(pairs@[i].0@) && table[pairs@[i].0@] == value_bytes(
                pairs@[i].1,
            )
            &&& table.contains_key(ext) <==> exists|j: int|
                0 <= j < pairs@.len() && (#[trigger] pairs@[j]).0@ == ext
        },
        r@ == (Config { known_extensions: r@.known_extensions, ..builder@ }),
{
    lemma_extension_map(pairs@, i, ext);
    if exists|j: int| 0 <= j < pairs@.len() && (#[trigger] pairs@[j]).0@ == ext {
        let j = choose|j: int| 0 <= j < pairs@.len() && (#[trigger] pairs@[j]).0@ == ext;
        let last = lemma_last_pair(pairs@, j);
        lemma_extension_map(pairs@, last, ext);
    }
}

/// A directory is served with compression, without a prefix, configured types or common headers,
/// and with the built-in table of types, unless it is said otherwise.
pub proof fn lemma_defaults(path: PathBuf, builder: ServedDirBuilder)
    requires
        call_ensures(ServedDir::builder, (path,), builder),
    ensures
        builder@.auto_compress,
        builder@.dirpath == path_bytes(path),
        builder@.strip_prefix is None,
        builder@.known_extensions is None,
        builder@.default_content_type == encode_utf8("application/octet-stream"@),
        forall|name: Seq<char>| !(#[trigger] builder@.common_headers.contains_key(name)),
        builder@.type_source == TypeSource::Table,
{
}

/// Each setter of a builder sets its own value and leaves the others, and what is built has the
/// settings of the builder.
pub proof fn lemma_builder_setters(
    a: ServedDirBuilder,
    auto_compress: bool,
    b: ServedDirBuilder,
    prefix: String,
    c: ServedDirBuilder,
    content_type: HeaderValue,
    d: ServedDirBuilder,
    type_source: TypeSource,
    e: ServedDirBuilder,
    built: ServedDir,
)
    requires
        call_ensures(ServedDirBuilder::auto_compress, (a, auto_compress), b),
        call_ensures(ServedDirBuilder::strip_prefix, (a, prefix), c),
        call_ensures(ServedDirBuilder::default_content_type, (a, content_type), d),
        call_ensures(ServedDirBuilder::type_source, (a, type_source), e),
        call_ensures(ServedDirBuilder::build, (a,), built),
    ensures
        b@ == (Config { auto_compress: auto_compress, ..a@ }),
        c@ == (Config { strip_prefix: Some(prefix@), ..a@ }),
        d@ == (Config { default_content_type: value_bytes(content_type), ..a@ }),
        e@ == (Config { type_source: type_source, ..a@ }),
        built@ == a@,
{
}

/// A common header has the value that was set last, alone; other headers and settings stay.
pub proof fn lemma_common_header(
    a: ServedDirBuilder,
    name: HeaderName,
    value: HeaderValue,
    b: ServedDirBuilder,
    other: Seq<char>,
)
    requires
        call_ensures(ServedDirBuilder::common_header, (a, name, value), b),
    ensures
        b@.common_headers.contains_pair(name_text(name), seq![value_bytes(value)]),
        other != name_text(name) ==> b@.common_headers.contains_key(other)
            == a@.common_headers.contains_key(other),
        other != name_text(name) && a@.common_headers.contains_key(other)
            ==> b@.common_headers[other] == a@.common_headers[other],
        b@ == (Config { common_headers: b@.common_headers, ..a@ }),
{
}

/// The content type of a file is that which is configured for its extension, else that of the
/// chosen source, else the default.
pub proof fn lemma_type_of_file(dir: &ServedDir, path: &PathBuf, ext: Seq<char>, r: HeaderValue)
    requires
        call_ensures(ServedDir::get_content_type, (dir, path), r),
        ext == extension_of(path_bytes(*path)),
    ensures
        value_bytes(r) == content_type_of(dir@, path_bytes(*path)),
        dir@.known_extensions matches Some(table) && table.contains_key(ext) ==> value_bytes(r)
            == dir@.known_extensions.unwrap()[ext],
        !(dir@.known_extensions matches Some(table) && table.contains_key(ext)) ==> {
            &&& dir@.type_source is Table && table_type(ext) is Some ==> value_bytes(r)
                == encode_utf8(table_type(ext).unwrap())
            &&& dir@.type_source is Table && table_type(ext) is None ==> value_bytes(r)
                == dir@.default_content_type
            &&& dir@.type_source is MimeGuess && mime_guess_type(ext) is Some ==> value_bytes(r)
                == encode_utf8(mime_guess_type(ext).unwrap())
            &&& dir@.type_source is MimeGuess && mime_guess_type(ext) is None ==> value_bytes(r)
                == dir@.default_content_type
        },
{
}

/// `rel` is what the request path asks for: what stands behind the prefix, where there is one.
pub open spec fn asks_for(config: Config, path: Seq<char>, rel: Seq<char>) -> bool {
    match config.strip_prefix {
        Some(prefix) => path == prefix + rel,
        None => path == rel,
    }
}

/// Nothing is wrong with the path: it holds no NUL byte, does not start with a separator, and has
/// no two dots alone between separators.
pub open spec fn is_clean(path: Seq<u8>) -> bool {
    &&& forall|i: int| 0 <= i < path.len() ==> #[trigger] path[i] != 0
    &&& path.len() > 0 ==> path[0] != 47
    &&& forall|i: int| !(#[trigger] has_parent_at(path, i))
}

/// The path names something in the directory, and not the directory itself.
pub open spec fn names_entry(path: Seq<u8>) -> bool {
    exists|i: int| has_name_at(path, i)
}

/// Opening each path comes out as `world` has it.
pub open spec fn opens_as<E, F: Fn(&PathBuf) -> Probe<E>>(
    open: F,
    world: spec_fn(Seq<u8>) -> Probe<E>,
) -> bool {
    forall|p: PathBuf, probe: Probe<E>| #[trigger]
        call_ensures(open, (&p,), probe) ==> probe == world(path_bytes(p))
}

/// No plain file is there, and that is known.
pub open spec fn is_no_file<E>(probe: Probe<E>) -> bool {
    match probe {
        Probe::NotFound => true,
        Probe::Failed(_) => false,
        Probe::Opened(metadata) => !metadata.is_file,
    }
}

/// The headers of a response: the content type, the coding where there is one, what the response
/// varies with where encodings are negotiated, and the common headers under all other names.
pub open spec fn carries(
    sent: Map<Seq<char>, Seq<Seq<u8>>>,
    config: Config,
    content_type: Seq<u8>,
    coding: Option<Seq<char>>,
) -> bool {
    let common = config.common_headers;
    &&& sent.contains_pair("content-type"@, seq![content_type])
    &&& coding matches Some(c) ==> sent.contains_pair("content-encoding"@, seq![encode_utf8(c)])
    &&& config.auto_compress ==> sent.contains_pair("vary"@, seq![encode_utf8("accept-encoding"@)])
    &&& forall|name: Seq<char>|
        name != "content-type"@ && !(coding is Some && name == "content-encoding"@) && !(
        config.auto_compress && name == "vary"@) ==> (#[trigger] sent.contains_key(name)
            <==> common.contains_key(name)) && (common.contains_key(name) ==> sent[name]
            == common[name])
}

/// The answer is the file at this path, stored in this coding, with the headers of a response.
pub open spec fn is_served<E>(
    r: Result<Resource, GetError<E>>,
    config: Config,
    full: Seq<u8>,
    found: Seq<u8>,
    metadata: FileMetadata,
    coding: Option<Seq<char>>,
) -> bool {
    &&& r matches Ok(resource)
    &&& path_bytes(resource.path) == found
    &&& resource.metadata == metadata
    &&& carries(header_fields(resource.headers), config, content_type_of(config, full), coding)
}

/// The headers of a response, one by one.
proof fn lemma_carries(config: Config, full: Seq<u8>, encoding: ContentEncoding)
    ensures
        carries(
            response_headers(config, full, encoding),
            config,
            content_type_of(config, full),
            match encoding {
                ContentEncoding::Brotli => Some("br"@),
                ContentEncoding::Gzip => Some("gzip"@),
                ContentEncoding::Identity => None,
            },
        ),
{
    reveal_strlit("content-type");
    reveal_strlit("content-encoding");
    reveal_strlit("vary");
    assert("content-type"@.len() == 12);
    assert("content-encoding"@.len() == 16);
    assert("vary"@.len() == 4);
}

/// A clean path that names something in the directory leads to what has a name.
proof fn lemma_entry_has_name(dir: Seq<u8>, rel: Seq<u8>)
    requires
        is_clean(rel),
        names_entry(rel),
    ensures
        final_component(with_separator(dir) + rel) is Some,
        steps(rel).len() > 0,
{
    lemma_faults(rel);
    lemma_has_steps(rel);
    lemma_steps_join(dir, rel);
    let n = steps(rel).len() - 1;
    lemma_no_step_up(rel, n);
    let full = with_separator(dir) + rel;
    assert(steps(full).last() == steps(rel)[n]);
    lemma_named_last(split(full, 47));
}

/// In a file system that does not change, a request is answered by the first candidate that settles
/// it.
proof fn lemma_answered<E, F: Fn(&PathBuf) -> Probe<E>>(
    dir: &ServedDir,
    path: &str,
    request: &HeaderMap<HeaderValue>,
    open: F,
    r: Result<Resource, GetError<E>>,
    rel: Seq<char>,
    world: spec_fn(Seq<u8>) -> Probe<E>,
)
    requires
        call_ensures(ServedDir::get::<E, F>, (dir, path, request, open), r),
        asks_for(dir@, path@, rel),
        is_clean(encode_utf8(rel)),
        opens_as(open, world),
    ensures
        ({
            let full = with_separator(dir@.dirpath) + encode_utf8(rel);
            let supported = if dir@.auto_compress && names_entry(encode_utf8(rel)) {
                request_codings(header_fields(*request))
            } else {
                CompressionSupport::Neither
            };
            answers(r, dir@, full, first_answer(candidates(full, supported), world))
        }),
{
    let config = dir@;
    let full = with_separator(config.dirpath) + encode_utf8(rel);
    if let Some(prefix) = config.strip_prefix {
        assert(prefix.is_prefix_of(path@));
        assert(path@.skip(prefix.len() as int) =~= rel);
    }
    lemma_faults(encode_utf8(rel));
    lemma_has_steps(encode_utf8(rel));
    let supported = preferred(config, header_fields(*request), path@);
    assert(route(config, path@) == Route::To(full));
    lemma_served_in_world(open, r, config, full, candidates(full, supported), world);
}

/// Whatever the prefix: where the client takes brotli and there is a brotli copy of the file that a
/// request asks for, the copy is the answer, and says so.
pub proof fn lemma_brotli_copy_is_served<E, F: Fn(&PathBuf) -> Probe<E>>(
    dir: &ServedDir,
    path: &str,
    request: &HeaderMap<HeaderValue>,
    open: F,
    r: Result<Resource, GetError<E>>,
    rel: Seq<char>,
    world: spec_fn(Seq<u8>) -> Probe<E>,
    metadata: FileMetadata,
)
    requires
        call_ensures(ServedDir::get::<E, F>, (dir, path, request, open), r),
        asks_for(dir@, path@, rel),
        is_clean(encode_utf8(rel)),
        names_entry(encode_utf8(rel)),
        opens_as(open, world),
        dir@.auto_compress,
        request_codings(header_fields(*request)).takes_brotli(),
        beside(with_separator(dir@.dirpath) + encode_utf8(rel), ".br"@) matches Some(copy)
            ==> world(copy) == Probe::<E>::Opened(metadata),
        metadata.is_file,
    ensures
        ({
            let full = with_separator(dir@.dirpath) + encode_utf8(rel);
            beside(full, ".br"@) matches Some(copy) && is_copy(full, copy, ".br"@) && is_served(
                r,
                dir@,
                full,
                copy,
                metadata,
                Some("br"@),
            )
        }),
{
    let full = with_separator(dir@.dirpath) + encode_utf8(rel);
    let supported = request_codings(header_fields(*request));
    lemma_entry_has_name(dir@.dirpath, encode_utf8(rel));
    lemma_answered(dir, path, request, open, r, rel, world);
    lemma_brotli_first(full, supported, metadata, world);
    lemma_carries(dir@, full, ContentEncoding::Brotli);
}

/// Whatever the prefix: where the client takes gzip, there is a gzip copy of the file that a
/// request asks for, and none with brotli that the client takes, the gzip copy is the answer, and
/// says so.
pub proof fn lemma_gzip_copy_is_served<E, F: Fn(&PathBuf) -> Probe<E>>(
    dir: &ServedDir,
    path: &str,
    request: &HeaderMap<HeaderValue>,
    open: F,
    r: Result<Resource, GetError<E>>,
    rel: Seq<char>,
    world: spec_fn(Seq<u8>) -> Probe<E>,
    metadata: FileMetadata,
)
    requires
        call_ensures(ServedDir::get::<E, F>, (dir, path, request, open), r),
        asks_for(dir@, path@, rel),
        is_clean(encode_utf8(rel)),
        names_entry(encode_utf8(rel)),
        opens_as(open, world),
        dir@.auto_compress,
        request_codings(header_fields(*request)).takes_gzip(),
        request_codings(header_fields(*request)).takes_brotli() ==> (beside(
            with_separator(dir@.dirpath) + encode_utf8(rel),
            ".br"@,
        ) matches Some(copy) ==> is_no_file(world(copy))),
        beside(with_separator(dir@.dirpath) + encode_utf8(rel), ".gz"@) matches Some(copy)
            ==> world(copy) == Probe::<E>::Opened(metadata),
        metadata.is_file,
    ensures
        ({
            let full = with_separator(dir@.dirpath) + encode_utf8(rel);
            beside(full, ".gz"@) matches Some(copy) && is_copy(full, copy, ".gz"@) && is_served(
                r,
                dir@,
                full,
                copy,
                metadata,
                Some("gzip"@),
            )
        }),
{
    let full = with_separator(dir@.dirpath) + encode_utf8(rel);
    let supported = request_codings(header_fields(*request));
    lemma_entry_has_name(dir@.dirpath, encode_utf8(rel));
    lemma_answered(dir, path, request, open, r, rel, world);
    lemma_gzip_second(full, supported, metadata, world);
    lemma_carries(dir@, full, ContentEncoding::Gzip);
}

/// A copy is looked for: encodings are negotiated, the request asks for something in the directory,
/// and the client takes this coding.
pub open spec fn looks_for(config: Config, rel: Seq<char>, taken: bool) -> bool {
    config.auto_compress && names_entry(encode_utf8(rel)) && taken
}

/// Whatever the prefix: where there is no copy that is looked for, the answer depends on what is at
/// the path itself. A plain file is served as it is; a directory is no file; anything else is not
/// found, like what is missing; and where the path cannot be opened, that is the answer.
pub proof fn lemma_plain_file_is_served<E, F: Fn(&PathBuf) -> Probe<E>>(
    dir: &ServedDir,
    path: &str,
    request: &HeaderMap<HeaderValue>,
    open: F,
    r: Result<Resource, GetError<E>>,
    rel: Seq<char>,
    world: spec_fn(Seq<u8>) -> Probe<E>,
)
    requires
        call_ensures(ServedDir::get::<E, F>, (dir, path, request, open), r),
        asks_for(dir@, path@, rel),
        is_clean(encode_utf8(rel)),
        opens_as(open, world),
        looks_for(dir@, rel, request_codings(header_fields(*request)).takes_brotli()) ==> (beside(
            with_separator(dir@.dirpath) + encode_utf8(rel),
            ".br"@,
        ) matches Some(copy) ==> is_no_file(world(copy))),
        looks_for(dir@, rel, request_codings(header_fields(*request)).takes_gzip()) ==> (beside(
            with_separator(dir@.dirpath) + encode_utf8(rel),
            ".gz"@,
        ) matches Some(copy) ==> is_no_file(world(copy))),
    ensures
        ({
            let full = with_separator(dir@.dirpath) + encode_utf8(rel);
            match world(full) {
                Probe::Opened(metadata) => if metadata.is_file {
                    is_served(r, dir@, full, full, metadata, None)
                } else if metadata.is_dir {
                    r matches Err(GetError::Other(error)) && path_bytes(error.0) == full
                } else {
                    r matches Err(GetError::NotFound(m)) && m@ == "file not found"@
                },
                Probe::NotFound => r matches Err(GetError::NotFound(m)) && m@ == "file not found"@,
                Probe::Failed(e) => r matches Err(GetError::Failed(error)) && error == e,
            }
        }),
{
    let full = with_separator(dir@.dirpath) + encode_utf8(rel);
    let supported = if dir@.auto_compress && names_entry(encode_utf8(rel)) {
        request_codings(header_fields(*request))
    } else {
        CompressionSupport::Neither
    };
    lemma_answered(dir, path, request, open, r, rel, world);
    lemma_plain_last(full, supported, world);
    lemma_carries(dir@, full, ContentEncoding::Identity);
}

/// Where a copy that is looked for first cannot be opened for another reason than that it is
/// missing, that is the answer.
pub proof fn lemma_failure_is_reported<E, F: Fn(&PathBuf) -> Probe<E>>(
    dir: &ServedDir,
    path: &str,
    request: &HeaderMap<HeaderValue>,
    open: F,
    r: Result<Resource, GetError<E>>,
    rel: Seq<char>,
    world: spec_fn(Seq<u8>) -> Probe<E>,
    e: E,
)
    requires
        call_ensures(ServedDir::get::<E, F>, (dir, path, request, open), r),
        asks_for(dir@, path@, rel),
        is_clean(encode_utf8(rel)),
        names_entry(encode_utf8(rel)),
        opens_as(open, world),
        dir@.auto_compress,
        ({
            let full = with_separator(dir@.dirpath) + encode_utf8(rel);
            let taken = request_codings(header_fields(*request));
            let br = beside(full, ".br"@).unwrap();
            let gz = beside(full, ".gz"@).unwrap();
            ||| taken.takes_brotli() && world(br) == Probe::<E>::Failed(e)
            ||| taken.takes_gzip() && world(gz) == Probe::<E>::Failed(e) && (taken.takes_brotli()
                ==> is_no_file(world(br)))
        }),
    ensures
        r matches Err(GetError::Failed(error)) && error == e,
{
    let full = with_separator(dir@.dirpath) + encode_utf8(rel);
    let taken = request_codings(header_fields(*request));
    let all = candidates(full, taken);
    lemma_entry_has_name(dir@.dirpath, encode_utf8(rel));
    lemma_answered(dir, path, request, open, r, rel, world);
    reveal_with_fuel(first_answer, 3);
    let br = (beside(full, ".br"@).unwrap(), ContentEncoding::Brotli);
    let gz = (beside(full, ".gz"@).unwrap(), ContentEncoding::Gzip);
    if taken.takes_brotli() {
        assert(all[0] == br);
        if taken.takes_gzip() {
            assert(all.drop_first()[0] == gz);
        }
    } else {
        assert(all[0] == gz);
    }
}

/// What is wrong with a request path is said as it is of the path behind the prefix.
pub proof fn lemma_refused_like<E, F: Fn(&PathBuf) -> Probe<E>>(
    dir: &ServedDir,
    path: &str,
    request: &HeaderMap<HeaderValue>,
    open: F,
    r: Result<Resource, GetError<E>>,
    rel: &str,
    fault: &'static str,
)
    requires
        call_ensures(ServedDir::get::<E, F>, (dir, path, request, open), r),
        asks_for(dir@, path@, rel@),
        call_ensures(validate_path, (rel,), Err(fault)),
    ensures
        r matches Err(GetError::InvalidInput(m)) && m@ == fault@,
{
    if let Some(prefix) = dir@.strip_prefix {
        assert(prefix.is_prefix_of(path@));
        assert(path@.skip(prefix.len() as int) =~= rel@);
    }
}

/// A request path without the prefix is not found, and one that is not clean behind it is refused,
/// whatever there is in the directory; all others are looked for.
pub proof fn lemma_refused<E, F: Fn(&PathBuf) -> Probe<E>>(
    dir: &ServedDir,
    path: &str,
    request: &HeaderMap<HeaderValue>,
    open: F,
    r: Result<Resource, GetError<E>>,
    rel: Seq<char>,
)
    requires
        call_ensures(ServedDir::get::<E, F>, (dir, path, request, open), r),
    ensures
        dir@.strip_prefix matches Some(prefix) && !prefix.is_prefix_of(path@) ==> (r matches Err(
            GetError::NotFound(m),
        ) && m@ == "invalid path, prefix not found"@),
        asks_for(dir@, path@, rel) && !is_clean(encode_utf8(rel)) ==> r matches Err(
            GetError::InvalidInput(_),
        ),
        asks_for(dir@, path@, rel) && is_clean(encode_utf8(rel)) ==> !(r matches Err(
            GetError::InvalidInput(_),
        )),
{
    if asks_for(dir@, path@, rel) {
        if let Some(prefix) = dir@.strip_prefix {
            assert(prefix.is_prefix_of(path@));
            assert(path@.skip(prefix.len() as int) =~= rel);
        }
        let b = encode_utf8(rel);
        lemma_faults(b);
        if !is_clean(b) {
            if exists|i: int| 0 <= i < b.len() && #[trigger] b[i] == 0 {
                let i = choose|i: int| 0 <= i < b.len() && #[trigger] b[i] == 0;
                assert(b[i] == 0);
            }
        }
    }
}

/// A common header can be set wherever there are fewer than 6550 of them, and where it is there
/// already.
pub proof fn lemma_room_for_common_header(a: ServedDirBuilder, name: HeaderName, value: HeaderValue)
    requires
        at_most(a@.common_headers, 6550),
    ensures
        a@.common_headers.dom().len() < 6550 || a@.common_headers.contains_key(name_text(name))
            ==> call_requires(ServedDirBuilder::common_header, (a, name, value)),
{
    let more = a@.common_headers.insert(name_text(name), seq![value_bytes(value)]);
    assert(more.dom() =~= a@.common_headers.dom().insert(name_text(name)));
}

/// Every request is answered, as long as every path can be tried.
pub proof fn lemma_every_request<E, F: Fn(&PathBuf) -> Probe<E>>(
    dir: &ServedDir,
    path: &str,
    request: &HeaderMap<HeaderValue>,
    open: F,
)
    requires
        forall|p: &PathBuf| #[trigger] call_requires(open, (p,)),
    ensures
        call_requires(ServedDir::get::<E, F>, (dir, path, request, open)),
{
}

} // verus!
