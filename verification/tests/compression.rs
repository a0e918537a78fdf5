use http::header::{HeaderMap, HeaderValue, ACCEPT_ENCODING};
use serdir::CompressionSupport;

fn ae_hdrs(value: &'static str) -> HeaderMap {
    let mut h = HeaderMap::new();
    h.insert(ACCEPT_ENCODING, HeaderValue::from_static(value));
    h
}

#[test]
fn parse_qvalue() {
    assert_eq!(serdir::parse_qvalue("0"), Ok(0));
    assert_eq!(serdir::parse_qvalue("0."), Ok(0));
    assert_eq!(serdir::parse_qvalue("0.0"), Ok(0));
    assert_eq!(serdir::parse_qvalue("0.00"), Ok(0));
    assert_eq!(serdir::parse_qvalue("0.000"), Ok(0));
    assert_eq!(serdir::parse_qvalue("0.0000"), Err(()));
    assert_eq!(serdir::parse_qvalue("0.2"), Ok(200));
    assert_eq!(serdir::parse_qvalue("0.23"), Ok(230));
    assert_eq!(serdir::parse_qvalue("0.234"), Ok(234));
    assert_eq!(serdir::parse_qvalue("1"), Ok(1000));
    assert_eq!(serdir::parse_qvalue("1."), Ok(1000));
    assert_eq!(serdir::parse_qvalue("1.0"), Ok(1000));
    assert_eq!(serdir::parse_qvalue("1.1"), Err(()));
    assert_eq!(serdir::parse_qvalue("1.00"), Ok(1000));
    assert_eq!(serdir::parse_qvalue("1.000"), Ok(1000));
    assert_eq!(serdir::parse_qvalue("1.001"), Err(()));
    assert_eq!(serdir::parse_qvalue("1.0000"), Err(()));
    assert_eq!(serdir::parse_qvalue("2"), Err(()));
}

#[test]
fn detect_compression_support() {
    // "A request without an Accept-Encoding header field implies that the
    // user agent has no preferences regarding content-codings. Although
    // this allows the server to use any content-coding in a response, it
    // does not imply that the user agent will be able to correctly process
    // all encodings." Identity seems safer; don't compress.
    assert!(matches!(
        serdir::detect_compression_support(&HeaderMap::new()),
        CompressionSupport::Neither
    ));

    // "If the representation's content-coding is one of the
    // content-codings listed in the Accept-Encoding field, then it is
    // acceptable unless it is accompanied by a qvalue of 0.  (As
    // defined in Section 5.3.1, a qvalue of 0 means "not acceptable".)"
    assert!(matches!(
        serdir::detect_compression_support(&ae_hdrs("gzip")),
        CompressionSupport::Gzip
    ));
    assert!(matches!(
        serdir::detect_compression_support(&ae_hdrs("gzip;q=0.001")),
        CompressionSupport::Gzip
    ));
    assert!(matches!(
        serdir::detect_compression_support(&ae_hdrs("br;q=0.001")),
        CompressionSupport::Brotli
    ));
    assert!(matches!(
        serdir::detect_compression_support(&ae_hdrs("br, gzip")),
        CompressionSupport::Both
    ));

    assert!(matches!(
        serdir::detect_compression_support(&ae_hdrs("gzip;q=0")),
        CompressionSupport::Neither
    ));

    // "An Accept-Encoding header field with a combined field-value that is
    // empty implies that the user agent does not want any content-coding in
    // response."
    assert!(matches!(
        serdir::detect_compression_support(&ae_hdrs("")),
        CompressionSupport::Neither
    ));

    // The asterisk "*" symbol matches any available content-coding not
    // explicitly listed. identity is a content-coding.
    // If * is q=1000, then identity_q=1000, and neither gzip nor br is
    // strictly greater than 1000.
    assert!(matches!(
        serdir::detect_compression_support(&ae_hdrs("*")),
        CompressionSupport::Both
    ));
    assert!(matches!(
        serdir::detect_compression_support(&ae_hdrs("gzip;q=0, *")),
        CompressionSupport::Brotli
    ));
    assert!(matches!(
        serdir::detect_compression_support(&ae_hdrs("identity;q=0, *")),
        CompressionSupport::Both
    ));

    // "If multiple content-codings are acceptable, then the acceptable
    // content-coding with the highest non-zero qvalue is preferred."
    assert!(matches!(
        serdir::detect_compression_support(&ae_hdrs("identity;q=0.5, gzip;q=1.0")),
        CompressionSupport::Gzip
    ));
    assert!(matches!(
        serdir::detect_compression_support(&ae_hdrs("identity;q=1.0, gzip;q=0.5")),
        CompressionSupport::Neither
    ));
    assert!(matches!(
        serdir::detect_compression_support(&ae_hdrs("br;q=1.0, gzip;q=0.5, identity;q=0.1")),
        CompressionSupport::Both
    ));
    assert!(matches!(
        serdir::detect_compression_support(&ae_hdrs("br;q=0.5, gzip;q=1.0, identity;q=0.1")),
        CompressionSupport::Both
    ));

    // "If an Accept-Encoding header field is present in a request
    // and none of the available representations for the response have a
    // content-coding that is listed as acceptable, the origin server SHOULD
    // send a response without any content-coding."
    assert!(matches!(
        serdir::detect_compression_support(&ae_hdrs("*;q=0")),
        CompressionSupport::Neither
    ));
    assert!(matches!(
        serdir::detect_compression_support(&ae_hdrs("gzip;q=0.002")), // q=2
        CompressionSupport::Gzip
    ));
}

#[test]
fn support_tells_which_codings_it_takes() {
    assert!(CompressionSupport::Both.brotli() && CompressionSupport::Both.gzip());
    assert!(CompressionSupport::Brotli.brotli() && !CompressionSupport::Brotli.gzip());
    assert!(!CompressionSupport::Gzip.brotli() && CompressionSupport::Gzip.gzip());
    assert!(!CompressionSupport::Neither.brotli() && !CompressionSupport::Neither.gzip());
}

#[test]
fn qvalues_are_digits_only() {
    assert_eq!(serdir::parse_qvalue(""), Err(()));
    assert_eq!(serdir::parse_qvalue("0.x"), Err(()));
    assert_eq!(serdir::parse_qvalue("0.+5"), Err(()));
    assert_eq!(serdir::parse_qvalue("0.-5"), Err(()));
    assert_eq!(serdir::parse_qvalue("-0"), Err(()));
    assert_eq!(serdir::parse_qvalue("0.999"), Ok(999));
    assert_eq!(serdir::parse_qvalue("0.001"), Ok(1));
}

#[test]
fn zero_quality_excludes_a_coding() {
    assert_eq!(
        serdir::detect_compression_support(&ae_hdrs("br;q=0, gzip;q=1.0")),
        CompressionSupport::Gzip
    );
    assert_eq!(
        serdir::detect_compression_support(&ae_hdrs("br, gzip;q=0.0")),
        CompressionSupport::Brotli
    );
}

#[test]
fn a_bad_element_makes_the_header_unusable() {
    assert_eq!(
        serdir::detect_compression_support(&ae_hdrs("gzip;q=5")),
        CompressionSupport::Neither
    );
    let mut h = HeaderMap::new();
    h.insert(ACCEPT_ENCODING, HeaderValue::from_bytes(b"gzip\xff").unwrap());
    assert_eq!(
        serdir::detect_compression_support(&h),
        CompressionSupport::Neither
    );
}

#[test]
fn an_unnamed_coding_is_not_used() {
    assert_eq!(
        serdir::detect_compression_support(&ae_hdrs("deflate")),
        CompressionSupport::Neither
    );
    assert_eq!(
        serdir::compression::codings_of(b"gzip, deflate"),
        CompressionSupport::Gzip
    );
}

#[test]
fn blanks_round_codings_do_not_matter() {
    assert_eq!(
        serdir::detect_compression_support(&ae_hdrs("  br ; q=0.5 ,\tgzip ")),
        CompressionSupport::Both
    );
}

#[test]
fn the_first_header_line_counts() {
    let mut h = ae_hdrs("br");
    h.append(ACCEPT_ENCODING, HeaderValue::from_static("gzip"));
    assert_eq!(
        serdir::detect_compression_support(&h),
        CompressionSupport::Brotli
    );
}

#[test]
fn lengths_widen() {
    assert_eq!(serdir::as_u64(0), 0);
    assert_eq!(serdir::as_u64(65_536), 65_536);
}

#[test]
fn letter_case_does_not_matter() {
    assert_eq!(
        serdir::detect_compression_support(&ae_hdrs("GZip;Q=0.5, BR;q=0.5, Identity;q=0.1")),
        CompressionSupport::Both
    );
    assert_eq!(
        serdir::detect_compression_support(&ae_hdrs("GZIP;Q=0, *")),
        CompressionSupport::Brotli
    );
}

#[test]
fn exchanging_the_names_exchanges_the_answers() {
    for (a, b) in [
        ("gzip, br;q=0", "br, gzip;q=0"),
        ("gzip;q=0.5, identity;q=0.7, br;q=0.8", "br;q=0.5, identity;q=0.7, gzip;q=0.8"),
        ("gzip;q=0, *", "br;q=0, *"),
        ("deflate, gzip", "deflate, br"),
    ] {
        let a = serdir::detect_compression_support(&ae_hdrs(a));
        let b = serdir::detect_compression_support(&ae_hdrs(b));
        assert_eq!(b.gzip(), a.brotli());
        assert_eq!(b.brotli(), a.gzip());
    }
}

#[test]
fn neither_order_nor_other_codings_matter() {
    let expected = CompressionSupport::Brotli;
    for value in [
        "br;q=0.9, identity;q=0.5, gzip;q=0.2",
        "gzip;q=0.2, br;q=0.9, identity;q=0.5",
        "identity;q=0.5, gzip;q=0.2, br;q=0.9",
        "deflate, identity;q=0.5, zstd;q=0.3, gzip;q=0.2, br;q=0.9, compress;q=0",
    ] {
        assert_eq!(serdir::detect_compression_support(&ae_hdrs(value)), expected);
    }
}
