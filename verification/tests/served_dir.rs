use http::header::{self, HeaderMap, HeaderName, HeaderValue};
use serdir::content_type::{choose_content_type, guess_content_type, TypeSource};
use serdir::node::{
    find_file, list_candidates, try_path, ContentEncoding, FileMetadata, Node, Probe, Resource,
};
use serdir::served_dir::GetError;
use serdir::{CompressionSupport, NotAFile, ServedDir};
use std::cell::RefCell;
use std::collections::BTreeMap;
use std::path::PathBuf;

const FILE: FileMetadata = FileMetadata {
    is_file: true,
    is_dir: false,
};
const DIR: FileMetadata = FileMetadata {
    is_file: false,
    is_dir: true,
};
const DEVICE: FileMetadata = FileMetadata {
    is_file: false,
    is_dir: false,
};

/// A file system in memory, rooted at `/srv`.
struct World {
    files: BTreeMap<PathBuf, &'static str>,
}

impl World {
    fn new(files: &[(&str, &'static str)]) -> World {
        World {
            files: files
                .iter()
                .map(|(name, text)| (PathBuf::from("/srv").join(name), *text))
                .collect(),
        }
    }

    fn open(&self, path: &PathBuf) -> Probe<String> {
        match self.files.contains_key(path) {
            true => Probe::Opened(FILE),
            false if path.as_path() == PathBuf::from("/srv/dir").as_path() => Probe::Opened(DIR),
            false if path.as_path() == PathBuf::from("/srv/locked").as_path() => {
                Probe::Failed("permission denied".to_string())
            }
            false => Probe::NotFound,
        }
    }

    fn get(
        &self,
        served_dir: &ServedDir,
        path: &str,
        hdrs: &HeaderMap,
    ) -> Result<Resource, GetError<String>> {
        served_dir.get(path, hdrs, |p: &PathBuf| self.open(p))
    }

    fn body(&self, resource: &Resource) -> &'static str {
        self.files[&resource.path]
    }
}

fn found(r: Result<Resource, GetError<String>>) -> Resource {
    match r {
        Ok(resource) => resource,
        Err(_) => panic!("no resource"),
    }
}

fn builder() -> serdir::ServedDirBuilder {
    ServedDir::builder(PathBuf::from("/srv"))
}

fn accepting(value: &'static str) -> HeaderMap {
    let mut hdrs = HeaderMap::new();
    hdrs.insert(header::ACCEPT_ENCODING, HeaderValue::from_static(value));
    hdrs
}

#[test]
fn test_served_dir_get() {
    let world = World::new(&[("one.txt", "one"), ("two.json", "more content")]);
    let served_dir = builder().build();
    let hdrs = HeaderMap::new();

    let e1 = found(world.get(&served_dir, "one.txt", &hdrs));
    assert_eq!(world.body(&e1).len(), 3);
    assert_eq!(e1.headers.get(header::CONTENT_TYPE).unwrap(), "text/plain");

    let e2 = found(world.get(&served_dir, "two.json", &hdrs));
    assert_eq!(world.body(&e2).len(), 12);
    assert_eq!(
        e2.headers.get(header::CONTENT_TYPE).unwrap(),
        "application/json"
    );
}

#[test]
fn test_served_dir_not_found() {
    let world = World::new(&[]);
    let served_dir = builder().build();
    let err = world.get(&served_dir, "non-existent.txt", &HeaderMap::new());
    assert!(matches!(err, Err(GetError::NotFound("file not found"))));
}

#[test]
fn test_served_dir_auto_compress() {
    let world = World::new(&[
        ("test.txt", "plain text"),
        ("test.txt.gz", "fake gzip content"),
        ("test.txt.br", "fake brotli content"),
    ]);
    let served_dir = builder().build();

    let e = found(world.get(&served_dir, "test.txt", &accepting("gzip, deflate")));
    assert_eq!(e.headers.get(header::CONTENT_ENCODING).unwrap(), "gzip");
    assert_eq!(world.body(&e), "fake gzip content");

    let e = found(world.get(&served_dir, "test.txt", &accepting("br")));
    assert_eq!(e.headers.get(header::CONTENT_ENCODING).unwrap(), "br");
    assert_eq!(world.body(&e), "fake brotli content");

    let e = found(world.get(&served_dir, "test.txt", &accepting("br, gzip")));
    assert_eq!(e.headers.get(header::CONTENT_ENCODING).unwrap(), "br");
    assert_eq!(world.body(&e), "fake brotli content");

    let e = found(world.get(&served_dir, "test.txt", &HeaderMap::new()));
    assert!(e.headers.get(header::CONTENT_ENCODING).is_none());
    assert_eq!(world.body(&e), "plain text");
    assert_eq!(e.headers.get(header::VARY).unwrap(), "accept-encoding");

    let served_dir = builder().auto_compress(false).build();
    let e = found(world.get(&served_dir, "test.txt", &accepting("br, gzip")));
    assert!(e.headers.get(header::CONTENT_ENCODING).is_none());
    assert!(e.headers.get(header::VARY).is_none());
    assert_eq!(world.body(&e), "plain text");
}

#[test]
fn test_served_dir_forbidden_paths() {
    let world = World::new(&[]);
    let served_dir = builder().build();
    let hdrs = HeaderMap::new();

    match world.get(&served_dir, "include/../etc/passwd", &hdrs) {
        Err(GetError::InvalidInput(reason)) => assert!(reason.contains("..")),
        _ => panic!("not refused"),
    }
    match world.get(&served_dir, "test\0file.txt", &hdrs) {
        Err(GetError::InvalidInput(reason)) => assert!(reason.contains("NUL byte")),
        _ => panic!("not refused"),
    }
}

#[test]
fn test_served_dir_strip_prefix() {
    let world = World::new(&[("real.txt", "real content")]);
    let served_dir = builder().strip_prefix("/static/".to_string()).build();
    let hdrs = HeaderMap::new();

    let e = found(world.get(&served_dir, "/static/real.txt", &hdrs));
    assert_eq!(world.body(&e), "real content");

    let err = world.get(&served_dir, "real.txt", &hdrs);
    assert!(matches!(
        err,
        Err(GetError::NotFound("invalid path, prefix not found"))
    ));
}

#[test]
fn test_served_dir_content_types() {
    let world = World::new(&[
        ("index.html", "html"),
        ("style.css", "css"),
        ("script.js", "js"),
        ("image.webp", "webp"),
        ("unknown.foo", "foo"),
    ]);
    let served_dir = builder().build();
    let hdrs = HeaderMap::new();
    for (name, content_type) in [
        ("index.html", "text/html"),
        ("style.css", "text/css"),
        ("script.js", "application/javascript"),
        ("image.webp", "image/webp"),
        ("unknown.foo", "application/octet-stream"),
    ] {
        let e = found(world.get(&served_dir, name, &hdrs));
        assert_eq!(e.headers.get(header::CONTENT_TYPE).unwrap(), content_type);
    }
}

#[test]
fn test_served_dir_common_headers() {
    let world = World::new(&[("one.txt", "one")]);
    let served_dir = builder()
        .common_header(
            header::CACHE_CONTROL,
            HeaderValue::from_static("public, max-age=3600"),
        )
        .common_header(
            header::ACCESS_CONTROL_ALLOW_ORIGIN,
            HeaderValue::from_static("*"),
        )
        .build();
    let e = found(world.get(&served_dir, "one.txt", &HeaderMap::new()));
    assert_eq!(
        e.headers.get(header::CACHE_CONTROL).unwrap(),
        "public, max-age=3600"
    );
    assert_eq!(
        e.headers.get(header::ACCESS_CONTROL_ALLOW_ORIGIN).unwrap(),
        "*"
    );
    assert_eq!(e.headers.get(header::CONTENT_TYPE).unwrap(), "text/plain");
}

#[test]
fn a_later_common_header_replaces_an_earlier_one() {
    let world = World::new(&[("one.txt", "one")]);
    let name = HeaderName::from_static("x-answer");
    let served_dir = builder()
        .common_header(name.clone(), HeaderValue::from_static("41"))
        .common_header(name.clone(), HeaderValue::from_static("42"))
        .common_header(header::CONTENT_TYPE, HeaderValue::from_static("a/b"))
        .build();
    let e = found(world.get(&served_dir, "one.txt", &HeaderMap::new()));
    assert_eq!(e.headers.get_all(&name).iter().count(), 1);
    assert_eq!(e.headers.get(&name).unwrap(), "42");
    assert_eq!(e.headers.get(header::CONTENT_TYPE).unwrap(), "text/plain");
}

#[test]
fn absolute_paths_are_refused() {
    let world = World::new(&[("one.txt", "one")]);
    let served_dir = builder().build();
    let r = world.get(&served_dir, "/one.txt", &HeaderMap::new());
    assert!(matches!(r, Err(GetError::InvalidInput("path is absolute"))));
    let r = world.get(&served_dir, "..", &HeaderMap::new());
    assert!(matches!(
        r,
        Err(GetError::InvalidInput("path contains .. segment"))
    ));
    let r = world.get(&served_dir, "..one.txt", &HeaderMap::new());
    assert!(matches!(r, Err(GetError::NotFound("file not found"))));
}

#[test]
fn a_directory_is_no_file() {
    let world = World::new(&[]);
    let served_dir = builder().build();
    match world.get(&served_dir, "dir", &accepting("br, gzip")) {
        Err(GetError::Other(NotAFile(path))) => assert_eq!(path, PathBuf::from("/srv/dir")),
        _ => panic!("served"),
    }
    let error = NotAFile(PathBuf::from("/srv/dir"));
    assert_eq!(error.message(), "Path is not a file: /srv/dir");
}

#[test]
fn an_error_of_opening_ends_the_search() {
    let world = World::new(&[]);
    let served_dir = builder().build();
    match world.get(&served_dir, "locked", &HeaderMap::new()) {
        Err(GetError::Failed(e)) => assert_eq!(e, "permission denied"),
        _ => panic!("served"),
    }
}

#[test]
fn configured_types_go_first() {
    let world = World::new(&[("a.html", ""), ("b.css", ""), ("c.foo", ""), ("d", "")]);
    let served_dir = builder()
        .known_extensions(vec![
            ("html".to_string(), HeaderValue::from_static("x/first")),
            ("html".to_string(), HeaderValue::from_static("x/second")),
        ])
        .default_content_type(HeaderValue::from_static("x/default"))
        .build();
    let hdrs = HeaderMap::new();
    for (name, content_type) in [
        ("a.html", "x/second"),
        ("b.css", "text/css"),
        ("c.foo", "x/default"),
        ("d", "x/default"),
    ] {
        let e = found(world.get(&served_dir, name, &hdrs));
        assert_eq!(e.headers.get(header::CONTENT_TYPE).unwrap(), content_type);
    }
    assert_eq!(
        served_dir.get_content_type(&PathBuf::from("x/y.html")),
        "x/second"
    );
}

#[test]
fn types_can_come_from_mime_guess() {
    let world = World::new(&[("a.js", ""), ("b.TXT", ""), ("c.unheardof", "")]);
    let served_dir = builder().type_source(TypeSource::MimeGuess).build();
    let hdrs = HeaderMap::new();
    for (name, content_type) in [
        ("a.js", "text/javascript"),
        ("b.TXT", "text/plain"),
        ("c.unheardof", "application/octet-stream"),
    ] {
        let e = found(world.get(&served_dir, name, &hdrs));
        assert_eq!(e.headers.get(header::CONTENT_TYPE).unwrap(), content_type);
    }
    assert_eq!(guess_content_type(TypeSource::MimeGuess, ""), None);
}

#[test]
fn the_table_knows_common_types() {
    for (ext, content_type) in [
        ("htm", "text/html"),
        ("hxt", "text/html"),
        ("jsx", "application/javascript"),
        ("apng", "image/apng"),
        ("ico", "image/x-icon"),
        ("pjp", "image/jpeg"),
        ("svg", "image/svg+xml"),
        ("bz2", "application/x-bzip2"),
        ("log", "text/plain"),
        ("md", "text/markdown"),
        ("mkd", "text/x-markdown"),
        ("mpg4", "video/mp4"),
        ("mpg", "video/mpeg"),
        ("yml", "application/yaml"),
        ("ics", "text/calendar"),
        (
            "docx",
            "application/vnd.openxmlformats-officedocument.wordprocessingml.document",
        ),
        (
            "pptx",
            "application/vnd.openxmlformats-officedocument.presentationml.presentation",
        ),
    ] {
        assert_eq!(guess_content_type(TypeSource::Table, ext), Some(content_type));
    }
    assert_eq!(guess_content_type(TypeSource::Table, "HTML"), None);
    assert_eq!(guess_content_type(TypeSource::Table, ""), None);
}

#[test]
fn a_type_is_chosen_by_precedence() {
    let configured = HeaderValue::from_static("a/configured");
    let default = HeaderValue::from_static("a/default");
    assert_eq!(
        choose_content_type(Some(&configured), Some("a/guessed"), &default),
        "a/configured"
    );
    assert_eq!(
        choose_content_type(None, Some("a/guessed"), &default),
        "a/guessed"
    );
    assert_eq!(choose_content_type(None, None, &default), "a/default");
}

#[test]
fn candidates_are_listed_best_first() {
    let path = PathBuf::from("/srv/a/b.txt");
    let all = list_candidates(&path, CompressionSupport::Both);
    assert_eq!(
        all,
        vec![
            (PathBuf::from("/srv/a/b.txt.br"), ContentEncoding::Brotli),
            (PathBuf::from("/srv/a/b.txt.gz"), ContentEncoding::Gzip),
            (path.clone(), ContentEncoding::Identity),
        ]
    );
    assert_eq!(
        list_candidates(&path, CompressionSupport::Neither),
        vec![(path, ContentEncoding::Identity)]
    );
    let root = PathBuf::from("/");
    assert_eq!(
        list_candidates(&root, CompressionSupport::Both),
        vec![(root.clone(), ContentEncoding::Identity)]
    );
    assert_eq!(
        list_candidates(&PathBuf::from("/srv/a/b/"), CompressionSupport::Gzip)[0],
        (PathBuf::from("/srv/a/b.gz"), ContentEncoding::Gzip)
    );
}

#[test]
fn a_search_stops_at_what_answers() {
    let opened: RefCell<Vec<PathBuf>> = RefCell::new(Vec::new());
    let open = |p: &PathBuf| -> Probe<()> {
        opened.borrow_mut().push(p.clone());
        match p.extension().and_then(|e| e.to_str()) {
            Some("gz") => Probe::Opened(FILE),
            Some("br") => Probe::Opened(DIR),
            _ => Probe::NotFound,
        }
    };
    let r = find_file(&PathBuf::from("/srv/x"), CompressionSupport::Both, open);
    match r {
        Ok(Some(node)) => {
            assert_eq!(node.path, PathBuf::from("/srv/x.gz"));
            assert_eq!(node.content_encoding, ContentEncoding::Gzip);
            assert!(!node.encoding_varies());
            assert_eq!(*node.metadata(), FILE);
        }
        _ => panic!("not found"),
    }
    assert_eq!(
        *opened.borrow(),
        vec![PathBuf::from("/srv/x.br"), PathBuf::from("/srv/x.gz")]
    );
}

#[test]
fn what_was_opened_must_be_usable() {
    let p = PathBuf::from("p");
    let found = |encoding, probe: Probe<u8>| match try_path(p.clone(), encoding, probe) {
        Ok(Some(_)) => "found".to_string(),
        Ok(None) => "missing".to_string(),
        Err(e) => format!("error {}", e),
    };
    assert_eq!(found(ContentEncoding::Identity, Probe::Opened(DIR)), "found");
    assert_eq!(found(ContentEncoding::Gzip, Probe::Opened(DIR)), "missing");
    assert_eq!(found(ContentEncoding::Brotli, Probe::Opened(FILE)), "found");
    assert_eq!(
        found(ContentEncoding::Identity, Probe::Opened(DEVICE)),
        "missing"
    );
    assert_eq!(found(ContentEncoding::Identity, Probe::NotFound), "missing");
    assert_eq!(found(ContentEncoding::Identity, Probe::Failed(3)), "error 3");
}

#[test]
fn a_node_adds_the_headers_of_its_encoding() {
    let node = |metadata, auto_compress, content_encoding| Node {
        path: PathBuf::from("p"),
        metadata,
        auto_compress,
        content_encoding,
    };
    let mut hdrs = HeaderMap::new();
    hdrs.insert(header::VARY, HeaderValue::from_static("cookie"));

    let r = node(FILE, false, ContentEncoding::Brotli).into_file_entity(hdrs.clone());
    let resource = r.unwrap_or_else(|_| panic!("not a file"));
    assert_eq!(resource.headers.get(header::CONTENT_ENCODING).unwrap(), "br");
    assert_eq!(resource.headers.get(header::VARY).unwrap(), "cookie");

    let r = node(FILE, true, ContentEncoding::Identity).into_file_entity(hdrs.clone());
    let resource = r.unwrap_or_else(|_| panic!("not a file"));
    assert!(resource.headers.get(header::CONTENT_ENCODING).is_none());
    assert_eq!(resource.headers.get(header::VARY).unwrap(), "accept-encoding");

    assert!(node(DIR, true, ContentEncoding::Identity)
        .into_file_entity(hdrs)
        .is_err());
}

#[test]
fn encodings_have_names() {
    assert_eq!(ContentEncoding::Gzip.get_header_value().unwrap(), "gzip");
    assert_eq!(ContentEncoding::Brotli.get_header_value().unwrap(), "br");
    assert_eq!(ContentEncoding::Identity.get_header_value(), None);
}

#[test]
fn names_in_a_header_map_are_counted() {
    let mut hdrs = HeaderMap::new();
    hdrs.append(header::VARY, HeaderValue::from_static("a"));
    hdrs.append(header::VARY, HeaderValue::from_static("b"));
    hdrs.append(header::AGE, HeaderValue::from_static("1"));
    assert!(serdir::headers::holds_at_most(&hdrs, 2));
    assert!(!serdir::headers::holds_at_most(&hdrs, 1));
}

#[test]
fn nothing_beside_the_directory_is_served() {
    let open = |p: &PathBuf| -> Probe<String> {
        match p.to_str() {
            Some("/srv.gz") | Some("/srv.br") => Probe::Opened(FILE),
            Some("/srv/") | Some("/srv/.") | Some("/srv/./") => Probe::Opened(DIR),
            _ => Probe::NotFound,
        }
    };
    let served_dir = builder().build();
    for path in ["", ".", "./"] {
        let r = served_dir.get(path, &accepting("br, gzip"), open);
        assert!(matches!(r, Err(GetError::Other(NotAFile(_)))), "{}", path);
    }
}

#[test]
fn a_copy_of_a_path_with_a_slash_behind_lies_in_the_directory() {
    let open = |p: &PathBuf| -> Probe<String> {
        match p.to_str() {
            Some("/srv/a.gz") => Probe::Opened(FILE),
            _ => Probe::NotFound,
        }
    };
    let served_dir = builder().build();
    for path in ["a", "a/", "a/.", "a//"] {
        let e = found(served_dir.get(path, &accepting("gzip"), open));
        assert_eq!(e.path, PathBuf::from("/srv/a.gz"), "{}", path);
    }
}

#[test]
fn a_header_can_be_replaced_when_there_is_room_for_no_more() {
    let mut b = builder();
    for n in 0..serdir::served_dir::COMMON_LIMIT {
        let name = HeaderName::from_bytes(format!("x-{}", n).as_bytes()).unwrap();
        b = b.common_header(name, HeaderValue::from_static("old"));
    }
    let name = HeaderName::from_static("x-17");
    let served_dir = b
        .common_header(name.clone(), HeaderValue::from_static("new"))
        .build();
    let world = World::new(&[("one.txt.gz", "one")]);
    let e = found(world.get(&served_dir, "one.txt", &accepting("gzip")));
    assert_eq!(e.headers.get(&name).unwrap(), "new");
    assert_eq!(e.headers.keys_len(), serdir::served_dir::COMMON_LIMIT + 3);
}
