use http::header::{self, HeaderMap, HeaderValue};
use serdir::etag::ETag;
use serdir::file::{read_chunks, ChunkReader, ETagCache, EntityError};
use serdir::node::FileMetadata;
use serdir::{ChunkedReadFile, Entity, FileInfo};
use std::cell::Cell;
use std::time::{Duration, SystemTime};

const FILE: FileMetadata = FileMetadata {
    is_file: true,
    is_dir: false,
};

fn info(path_hash: u64, len: u64, seconds: u64) -> FileInfo {
    FileInfo {
        path_hash,
        len,
        mtime: SystemTime::UNIX_EPOCH + Duration::from_secs(seconds),
    }
}

fn entity_of(data: &[u8], seconds: u64, headers: HeaderMap) -> ChunkedReadFile {
    let mut cache = ETagCache::new();
    let r = ChunkedReadFile::new_with_metadata(
        &FILE,
        headers,
        &mut cache,
        || Ok::<FileInfo, String>(info(7, data.len() as u64, seconds)),
        |_: &FileInfo| Ok(ETag(rapidhash::v3::rapidhash_v3(data))),
    );
    r.unwrap_or_else(|_| panic!("no entity"))
}

fn read_at(data: &[u8], offset: u64, size: usize) -> Result<Vec<u8>, &'static str> {
    let start = offset as usize;
    match data.get(start..start + size) {
        Some(bytes) => Ok(bytes.to_vec()),
        None => Err("unexpected end of file"),
    }
}

#[test]
fn basic() {
    let data = b"asdf";
    let crf1 = entity_of(data, 1, HeaderMap::new());
    assert_eq!(4, crf1.len());
    assert!(!crf1.is_empty());
    let read = |offset: u64, size: usize| read_at(data, offset, size);
    assert_eq!(read_chunks(crf1.get_range(0..4), read).unwrap(), b"asdf");
    assert_eq!(read_chunks(crf1.get_range(1..3), read).unwrap(), b"sd");
    assert_eq!(read_chunks(crf1.get_range(2..2), read).unwrap(), b"");

    let crf2 = entity_of(b"asdfjkl;", 2, HeaderMap::new());
    assert_eq!(8, crf2.len());
}

#[test]
fn etag() {
    let crf1 = entity_of(b"first value", 1, HeaderMap::new());
    let etag1 = crf1.etag().expect("etag1 was None");
    assert_eq!(r#""928c5c44c1689e3f""#, etag1.to_str().unwrap());

    let crf2 = entity_of(b"another value", 1, HeaderMap::new());
    let etag2 = crf2.etag().expect("etag2 was None");
    assert_eq!(r#""d712812bea51c2cf""#, etag2.to_str().unwrap());
    assert_eq!(Some(etag1), crf1.etag());
}

#[test]
fn last_modified() {
    let t = SystemTime::UNIX_EPOCH + Duration::from_secs(50 * 3600);
    let crf = entity_of(b"blahblah", 50 * 3600, HeaderMap::new());
    assert_eq!(Some(t), crf.last_modified());
}

#[test]
fn truncate_race() {
    let crf = entity_of(b"asdf", 1, HeaderMap::new());
    assert_eq!(4, crf.len());
    let truncated = b"asd";
    let r = crf.read_body(|offset: u64, size: usize| read_at(truncated, offset, size));
    assert_eq!(r.unwrap_err(), "unexpected end of file");
}

#[test]
fn a_body_is_read_in_chunks() {
    let data: Vec<u8> = (0..150_000u32).map(|n| (n % 251) as u8).collect();
    let crf = entity_of(&data, 1, HeaderMap::new());
    let calls = Cell::new(0);
    let body = crf
        .read_body(|offset: u64, size: usize| {
            calls.set(calls.get() + 1);
            assert!(size <= 65_536);
            read_at(&data, offset, size)
        })
        .unwrap();
    assert_eq!(calls.get(), 3);
    assert_eq!(body, data);
}

#[test]
fn short_reads_are_gone_on_from() {
    let data = b"abcdefghij";
    let r = read_chunks(ChunkReader::new(2..9), |offset: u64, size: usize| {
        read_at(data, offset, size.min(3))
    });
    assert_eq!(r.unwrap(), b"cdefghi");
}

#[test]
fn after_an_error_the_same_chunk_is_next() {
    let mut reader = ChunkReader::new(10..70_000);
    assert_eq!(reader.next_chunk(), Some((10, 65_536)));
    assert_eq!(reader.advance(Err("busy")), Err("busy"));
    assert_eq!(reader.next_chunk(), Some((10, 65_536)));
    assert_eq!(
        reader.advance(Ok::<Vec<u8>, &str>(vec![1; 65_536])).unwrap().len(),
        65_536
    );
    assert_eq!(reader.next_chunk(), Some((65_546, 4_454)));
    assert!(reader.advance(Ok::<Vec<u8>, &str>(vec![1; 4_454])).is_ok());
    assert_eq!(reader.next_chunk(), None);
}

#[test]
fn headers_are_added_behind_those_that_are_there() {
    let mut own = HeaderMap::new();
    own.insert(header::CONTENT_TYPE, HeaderValue::from_static("a/b"));
    own.append(header::LINK, HeaderValue::from_static("x"));
    own.append(header::LINK, HeaderValue::from_static("y"));
    let crf = entity_of(b"asdf", 1, own);
    let mut hdrs = HeaderMap::new();
    hdrs.insert(header::LINK, HeaderValue::from_static("w"));
    hdrs.insert(header::AGE, HeaderValue::from_static("1"));
    crf.add_headers(&mut hdrs);
    let links: Vec<&HeaderValue> = hdrs.get_all(header::LINK).iter().collect();
    assert_eq!(links, vec!["w", "x", "y"]);
    assert_eq!(hdrs.get(header::CONTENT_TYPE).unwrap(), "a/b");
    assert_eq!(hdrs.get(header::AGE).unwrap(), "1");
}

#[test]
fn a_file_is_hashed_once() {
    let mut cache = ETagCache::new();
    let hashed = Cell::new(0);
    for _ in 0..3 {
        let r = ChunkedReadFile::new_with_metadata(
            &FILE,
            HeaderMap::new(),
            &mut cache,
            || Ok::<FileInfo, String>(info(1, 2, 3)),
            |_: &FileInfo| {
                hashed.set(hashed.get() + 1);
                Ok(ETag(hashed.get()))
            },
        );
        let entity = r.unwrap_or_else(|_| panic!("no entity"));
        assert_eq!(entity.etag().unwrap(), "\"0000000000000001\"");
    }
    assert_eq!(hashed.get(), 1);

    let r = ChunkedReadFile::new_with_metadata(
        &FILE,
        HeaderMap::new(),
        &mut cache,
        || Ok::<FileInfo, String>(info(1, 2, 4)),
        |_: &FileInfo| Ok(ETag(0xfedc_ba98_7654_3210)),
    );
    let entity = r.unwrap_or_else(|_| panic!("no entity"));
    assert_eq!(entity.etag().unwrap(), "\"fedcba9876543210\"");
}

#[test]
fn an_entity_needs_a_file_that_can_be_read() {
    let mut cache = ETagCache::new();
    let dir = FileMetadata {
        is_file: false,
        is_dir: true,
    };
    let examine = || Ok::<FileInfo, String>(info(1, 2, 3));
    let r = ChunkedReadFile::new_with_metadata(
        &dir,
        HeaderMap::new(),
        &mut cache,
        || panic!("examined"),
        |_: &FileInfo| Err::<ETag, String>("hashed".to_string()),
    );
    assert!(matches!(r, Err(EntityError::NotAFile("expected a file"))));

    let r = ChunkedReadFile::new_with_metadata(
        &FILE,
        HeaderMap::new(),
        &mut cache,
        || Err::<FileInfo, String>("gone".to_string()),
        |_: &FileInfo| Ok(ETag(1)),
    );
    assert!(matches!(r, Err(EntityError::Failed(e)) if e == "gone"));

    let r = ChunkedReadFile::new_with_metadata(
        &FILE,
        HeaderMap::new(),
        &mut cache,
        examine,
        |_: &FileInfo| Err("unreadable".to_string()),
    );
    assert!(matches!(r, Err(EntityError::Failed(e)) if e == "unreadable"));

    let r = ChunkedReadFile::new_with_metadata(
        &FILE,
        HeaderMap::new(),
        &mut cache,
        examine,
        |_: &FileInfo| Ok(ETag(5)),
    );
    let entity = r.unwrap_or_else(|_| panic!("no entity"));
    assert_eq!(entity.etag().unwrap(), "\"0000000000000005\"");
}

#[test]
fn file_infos_are_equal_in_all_parts() {
    assert!(info(1, 2, 3) == info(1, 2, 3));
    assert!(info(1, 2, 3) != info(0, 2, 3));
    assert!(info(1, 2, 3) != info(1, 0, 3));
    assert!(info(1, 2, 3) != info(1, 2, 0));
    assert_eq!(info(1, 2, 3).get_hash(), 1);
    assert_eq!(info(1, 2, 3).len(), 2);
    assert_eq!(
        info(1, 2, 3).mtime(),
        SystemTime::UNIX_EPOCH + Duration::from_secs(3)
    );
}

#[test]
fn tags_are_sixteen_digits() {
    assert_eq!(&ETag(0).to_bytes(), b"0000000000000000");
    assert_eq!(&ETag(0x0123_4567_89ab_cdef).to_bytes(), b"0123456789abcdef");
    assert_eq!(&ETag(u64::MAX).to_bytes(), b"ffffffffffffffff");
}
