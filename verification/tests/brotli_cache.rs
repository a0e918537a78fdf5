use serdir::brotli_cache::{
    BrotliMode, CompressFailure, Compressed, CompressionParams, MatchedFile, Request, Step,
};
use serdir::node::ContentEncoding;
use serdir::{BrotliCache, BrotliLevel, CachedCompression, FileInfo};
use std::path::PathBuf;
use std::time::{Duration, SystemTime};

fn info(path_hash: u64, len: u64) -> FileInfo {
    FileInfo {
        path_hash,
        len,
        mtime: SystemTime::UNIX_EPOCH + Duration::from_secs(path_hash),
    }
}

fn copy(handle: u64, len: u64) -> Result<Compressed, CompressFailure<String>> {
    Ok(Compressed {
        handle,
        len,
        mtime: SystemTime::UNIX_EPOCH + Duration::from_secs(1000),
    })
}

fn request(cache: &BrotliCache, path: &str) -> (Request, Step) {
    cache.get(PathBuf::from(path))
}

fn done(step: Step) -> MatchedFile {
    match step {
        Step::Done(file) => file,
        _ => panic!("not done"),
    }
}

/// Puts a copy of this size in, of a file of this hash.
fn put(cache: &mut BrotliCache, hash: u64, len: u64) -> MatchedFile {
    let (request, _) = request(cache, "f.txt");
    match cache.compressed(&request, info(hash, 10 * len), copy(hash, len)) {
        Ok(step) => done(step),
        Err(_) => panic!("failed"),
    }
}

fn sorted_handles(cache: &BrotliCache) -> Vec<u64> {
    let mut handles = cache.handles();
    handles.sort();
    handles
}

#[test]
fn test_brotli_cache_initialization_defaults() {
    let settings = CachedCompression::default();
    let cache = BrotliCache::from(settings);
    assert_eq!(cache.quality(), i32::from(BrotliLevel::L5));
    assert_eq!(cache.capacity(), 1024);
    assert_eq!(cache.max_file_size(), 10 * 1024 * 1024);
}

#[test]
fn test_brotli_cache_initialization_custom() {
    let extensions = vec!["html"];

    let settings = CachedCompression::new()
        .capacity(64)
        .compression_level(BrotliLevel::L5)
        .supported_extensions(Some(extensions.clone()));

    let cache = BrotliCache::from(settings);

    assert_eq!(cache.capacity(), 64);
    assert_eq!(cache.quality(), 5);
    let tried: Vec<&str> = vec!["html", "htm", "css", "txt", "", "HTML"];
    let supported: Vec<&str> = tried.into_iter().filter(|e| cache.supports(e)).collect();
    assert_eq!(supported, extensions);
}

#[test]
fn test_brotli_cache_build() {
    let cache = BrotliCache::from(
        CachedCompression::new()
            .capacity(16)
            .compression_level(BrotliLevel::L1),
    );

    assert_eq!(cache.quality(), 1);
}

#[test]
fn test_simple_compression() {
    let mut cache =
        BrotliCache::from(CachedCompression::new().compression_level(BrotliLevel::L1));
    let orig_info = info(0x0102_0304_0506_0708, 46);

    let (request, step) = request(&cache, "/srv/test.html");
    assert!(matches!(step, Step::Examine));
    let (of, params) = match cache.examined(&request, orig_info) {
        Step::Compress(of, params) => (of, params),
        _ => panic!("not to be compressed"),
    };
    assert!(of == orig_info);
    assert_eq!(
        params,
        CompressionParams {
            quality: 1,
            mode: BrotliMode::Text,
            size_hint: 46,
        }
    );
    let matched = match cache.compressed(&request, of, copy(3, 40)) {
        Ok(step) => done(step),
        Err(_) => panic!("failed"),
    };
    assert_eq!(matched.content_encoding, ContentEncoding::Brotli);
    assert_ne!(matched.file_info.get_hash(), orig_info.get_hash());
    assert_eq!(matched.file_info.get_hash(), 0x0807_0605_0403_0201);
    assert_eq!(matched.file_info.len(), 40);
    assert_eq!(matched.extension, "html");

    // Second call returns cached version
    let matched2 = done(cache.examined(&request, orig_info));
    assert_eq!(matched2.handle, 3);
    assert_eq!(matched2.file_info.mtime(), matched.file_info.mtime());
}

#[test]
fn test_skip_compression() {
    let cache = BrotliCache::from(CachedCompression::default());
    let (request, step) = request(&cache, "/srv/test.jpg");
    assert!(matches!(step, Step::OpenOriginal));
    let orig_info = info(1, 1000);
    let matched = BrotliCache::wrap_orig(&request, 9, orig_info);
    assert_eq!(matched.content_encoding, ContentEncoding::Identity);
    assert_eq!(matched.file_info.len(), orig_info.len());
    assert_eq!(matched.file_info.mtime(), orig_info.mtime());
    assert_eq!(matched.handle, 9);
    assert_eq!(matched.extension, "jpg");
}

#[test]
fn test_max_file_size() {
    let cache = BrotliCache::from(CachedCompression::new().max_file_size(10));
    let (big, step) = request(&cache, "too_big.txt");
    assert!(matches!(step, Step::Examine));
    assert!(matches!(
        cache.examined(&big, info(1, 49)),
        Step::OpenOriginal
    ));
    assert!(matches!(
        cache.examined(&big, info(1, 11)),
        Step::OpenOriginal
    ));
    let (small, _) = request(&cache, "small.txt");
    assert!(matches!(
        cache.examined(&small, info(2, 5)),
        Step::Compress(_, _)
    ));
    assert!(matches!(
        cache.examined(&small, info(2, 10)),
        Step::Compress(_, _)
    ));
}

#[test]
fn test_prune_cache_keeps_smallest_half() {
    let mut cache = BrotliCache::from(CachedCompression::new().capacity(16));
    let sizes: [(u64, u64); 4] = [(1, 64), (2, 256), (3, 1024), (4, 4096)];
    for (handle, size) in sizes {
        put(&mut cache, handle, size);
    }
    let size_of = |handle: &u64| sizes.iter().find(|(h, _)| h == handle).unwrap().1;

    let mut before: Vec<u64> = cache.handles().iter().map(size_of).collect();
    before.sort();
    let expected_sizes: Vec<u64> = before[..before.len() / 2].to_vec();

    cache.prune_cache();

    let mut remaining: Vec<u64> = cache.handles().iter().map(size_of).collect();
    remaining.sort();
    assert_eq!(remaining, expected_sizes);
}

#[test]
fn pruning_goes_by_size() {
    let mut cache = BrotliCache::from(CachedCompression::new());
    for (hash, size) in [(1, 4096), (2, 64), (3, 1024), (4, 256)] {
        put(&mut cache, hash, size);
    }
    assert_eq!(sorted_handles(&cache), vec![1, 2, 3, 4]);
    cache.prune_cache();
    assert_eq!(sorted_handles(&cache), vec![2, 4]);
    cache.prune_cache();
    assert_eq!(sorted_handles(&cache), vec![2]);
    cache.prune_cache();
    assert_eq!(sorted_handles(&cache), Vec::<u64>::new());
}

#[test]
fn files_stay_while_there_is_room() {
    let mut cache = BrotliCache::from(CachedCompression::new().max_total_weight(16 * 640));
    for hash in 1..=64 {
        put(&mut cache, hash, 10);
    }
    assert_eq!(sorted_handles(&cache), (1..=64).collect::<Vec<u64>>());
    cache.prune_cache();
    let kept = sorted_handles(&cache);
    assert_eq!(kept.len(), 32);
    put(&mut cache, 100, 10);
    assert!(kept.iter().all(|handle| cache.handles().contains(handle)));
    assert_eq!(cache.handles().len(), 33);
}

#[test]
fn a_full_disk_prunes_and_serves_the_original() {
    let mut cache = BrotliCache::from(CachedCompression::new());
    put(&mut cache, 1, 10);
    put(&mut cache, 2, 20);
    put(&mut cache, 3, 30);
    let (request, _) = request(&cache, "f.txt");
    let r = cache.compressed(
        &request,
        info(4, 40),
        Err::<Compressed, CompressFailure<String>>(CompressFailure::StorageFull),
    );
    assert!(matches!(r, Ok(Step::OpenOriginal)));
    assert_eq!(sorted_handles(&cache), vec![1]);

    // What is left stays when more files come.
    put(&mut cache, 5, 50);
    assert_eq!(sorted_handles(&cache), vec![1, 5]);
}

#[test]
fn another_failure_is_reported() {
    let mut cache = BrotliCache::from(CachedCompression::new());
    put(&mut cache, 1, 10);
    let (request, _) = request(&cache, "/srv/f.txt");
    match cache.compressed(
        &request,
        info(4, 40),
        Err(CompressFailure::Other("broken".to_string())),
    ) {
        Err(error) => {
            assert_eq!(error.message, "Brotli compression failed for /srv/f.txt");
            assert_eq!(error.cause, "broken");
        }
        Ok(_) => panic!("not reported"),
    }
    assert_eq!(sorted_handles(&cache), vec![1]);
}

#[test]
fn small_caches_round_up_and_stay_within_bounds() {
    let mut cache = BrotliCache::from(CachedCompression::new().capacity(3));
    assert_eq!(cache.capacity(), 16);
    for hash in 0..200 {
        put(&mut cache, hash, 10);
        assert!(cache.handles().contains(&hash));
    }
    assert!(cache.handles().len() <= 16);
}

#[test]
fn heavy_files_put_others_out_even_after_pruning() {
    let mut cache = BrotliCache::from(CachedCompression::new().max_total_weight(1600));
    for round in 0..20 {
        for n in 0..50 {
            let hash = 1000 * round + n;
            put(&mut cache, hash, 1 + hash % 90);
            assert!(cache.handles().contains(&hash));
            assert!(cache.handles().iter().map(|h| 1 + h % 90).sum::<u64>() <= 1600);
        }
        let before = cache.handles().len();
        cache.prune_cache();
        assert_eq!(cache.handles().len(), before / 2);
    }
}

#[test]
fn a_new_copy_replaces_the_old_one() {
    let mut cache = BrotliCache::from(CachedCompression::new());
    let (request, _) = request(&cache, "f.css");
    for handle in [1, 2] {
        assert!(cache.compressed(&request, info(7, 70), copy(handle, 9)).is_ok());
    }
    assert_eq!(done(cache.examined(&request, info(7, 70))).handle, 2);
    assert_eq!(cache.handles(), vec![2]);
}

#[test]
fn a_changed_file_is_compressed_again() {
    let mut cache = BrotliCache::from(CachedCompression::new());
    let (request, _) = request(&cache, "f.css");
    assert!(cache.compressed(&request, info(7, 70), copy(1, 9)).is_ok());
    assert!(matches!(
        cache.examined(&request, info(7, 71)),
        Step::Compress(_, _)
    ));
}

#[test]
fn text_types_are_supported_by_default() {
    let cache = BrotliCache::from(CachedCompression::new());
    for ext in [
        "html", "htm", "xhtml", "css", "js", "json", "xml", "svg", "txt", "csv", "tsv", "md",
    ] {
        assert!(cache.supports(ext));
        assert_eq!(cache.detect_brotli_mode(ext), BrotliMode::Text);
    }
    assert!(!cache.supports("jpg") && !cache.supports(""));
    assert_eq!(cache.detect_brotli_mode("jpg"), BrotliMode::Generic);
}

#[test]
fn extensions_are_those_of_the_file_name() {
    let cache = BrotliCache::from(CachedCompression::new());
    for (path, ext) in [
        ("/a/b.tar.gz", "gz"),
        ("/a.d/b", ""),
        (".html", ""),
        ("a.html/", "html"),
        ("a.", ""),
        ("a/..", ""),
    ] {
        assert_eq!(request(&cache, path).0.extension, ext, "{}", path);
    }
}

#[test]
fn levels_have_numbers() {
    assert_eq!(i32::from(BrotliLevel::L0), 0);
    assert_eq!(i32::from(BrotliLevel::L9), 9);
    assert_eq!(i32::from(BrotliLevel::L11), 11);
}

#[test]
fn what_pruning_left_stays_when_more_comes() {
    let mut cache = BrotliCache::from(CachedCompression::new());
    for hash in 1..=600 {
        put(&mut cache, hash, hash);
    }
    let before = cache.handles().len();
    cache.prune_cache();
    let kept = cache.handles();
    assert_eq!(kept.len(), before / 2);
    put(&mut cache, 1000, 1);
    let handles = cache.handles();
    assert!(kept.iter().all(|handle| handles.contains(handle)));
    assert_eq!(handles.len(), kept.len() + 1);
}
