use http::header::HeaderValue;
use serdir::range::{parse, parse_text, ResolvedRanges};

/// Tests the specific examples enumerated in [RFC 2616 section
/// 14.35.1](https://tools.ietf.org/html/rfc2616#section-14.35.1).
#[test]
fn test_resolve_ranges_rfc() {
    assert_eq!(
        ResolvedRanges::Single(0..500),
        parse(Some(&HeaderValue::from_static("bytes=0-499")), 10000)
    );

    assert_eq!(
        ResolvedRanges::Single(500..1000),
        parse(Some(&HeaderValue::from_static("bytes=500-999")), 10000)
    );

    assert_eq!(
        ResolvedRanges::Single(9500..10000),
        parse(Some(&HeaderValue::from_static("bytes=-500")), 10000)
    );

    assert_eq!(
        ResolvedRanges::Single(9500..10000),
        parse(Some(&HeaderValue::from_static("bytes=9500-")), 10000)
    );

    assert_eq!(
        ResolvedRanges::Multiple(vec![0..1, 9999..10000]),
        parse(Some(&HeaderValue::from_static("bytes=0-0,-1")), 10000)
    );

    // Non-canonical ranges. Possibly the point of these is that the adjacent and overlapping
    // ranges are supposed to be coalesced into one? I'm not going to do that for now.

    assert_eq!(
        ResolvedRanges::Multiple(vec![500..601, 601..1000]),
        parse(
            Some(&HeaderValue::from_static("bytes=500-600, 601-999")),
            10000
        )
    );

    assert_eq!(
        ResolvedRanges::Multiple(vec![500..701, 601..1000]),
        parse(
            Some(&HeaderValue::from_static("bytes=500-700, 601-999")),
            10000
        )
    );
}

#[test]
fn test_resolve_ranges_satisfiability() {
    assert_eq!(
        ResolvedRanges::NotSatisfiable,
        parse(Some(&HeaderValue::from_static("bytes=10000-")), 10000)
    );

    assert_eq!(
        ResolvedRanges::Single(0..500),
        parse(Some(&HeaderValue::from_static("bytes=0-499,10000-")), 10000)
    );

    assert_eq!(
        ResolvedRanges::NotSatisfiable,
        parse(Some(&HeaderValue::from_static("bytes=-1")), 0)
    );
    assert_eq!(
        ResolvedRanges::NotSatisfiable,
        parse(Some(&HeaderValue::from_static("bytes=0-0")), 0)
    );
    assert_eq!(
        ResolvedRanges::NotSatisfiable,
        parse(Some(&HeaderValue::from_static("bytes=0-")), 0)
    );

    assert_eq!(
        ResolvedRanges::Single(0..1),
        parse(Some(&HeaderValue::from_static("bytes=0-0")), 1)
    );

    assert_eq!(
        ResolvedRanges::Single(0..500),
        parse(Some(&HeaderValue::from_static("bytes=0-10000")), 500)
    );
}

#[test]
fn test_resolve_ranges_absent_or_invalid() {
    assert_eq!(ResolvedRanges::Absent, parse(None, 10000));
}

#[test]
fn test_nonascii() {
    assert_eq!(
        ResolvedRanges::Absent,
        parse(Some(&HeaderValue::from_bytes(b"\xff").unwrap()), 10000)
    );
}

#[test]
fn a_header_that_cannot_be_read_is_ignored() {
    for text in ["", "bytes", "bytes=", "bytes=-", "bytes=a-b", "lines=0-1", "bytes=1-2;3"] {
        assert_eq!(ResolvedRanges::Absent, parse_text(text, 10000), "{}", text);
    }
}

#[test]
fn ranges_stay_within_the_entity() {
    assert_eq!(
        ResolvedRanges::Single(5..10),
        parse_text("bytes=5-18446744073709551615", 10)
    );
    assert_eq!(
        ResolvedRanges::Absent,
        parse_text("bytes=5-18446744073709551616", 10)
    );
    assert_eq!(ResolvedRanges::Single(9..10), parse_text("bytes=9-", 10));
}

#[test]
fn a_suffix_of_nothing_cannot_be_satisfied() {
    assert_eq!(ResolvedRanges::NotSatisfiable, parse_text("bytes=-0", 10));
    assert_eq!(ResolvedRanges::Single(0..1), parse_text("bytes=-0,0-0", 10));
}

#[test]
fn a_suffix_as_long_as_the_entity_is_all_of_it() {
    assert_eq!(ResolvedRanges::Single(0..500), parse_text("bytes=-500", 500));
    assert_eq!(ResolvedRanges::Single(0..499), parse_text("bytes=-500", 499));
    assert_eq!(ResolvedRanges::Single(1..10), parse_text("bytes=-9", 10));
    assert_eq!(ResolvedRanges::NotSatisfiable, parse_text("bytes=-5", 0));
}

#[test]
fn positions_are_digits_only() {
    for text in ["bytes=+0-+499", "bytes=0-+499", "bytes=-+5", "bytes=0x1-2", "bytes=1 2-3"] {
        assert_eq!(ResolvedRanges::Absent, parse_text(text, 10000), "{}", text);
    }
}

#[test]
fn blanks_may_stand_round_commas() {
    let both = ResolvedRanges::Multiple(vec![0..2, 3..5]);
    for text in [
        "bytes=0-1 ,3-4",
        "bytes=0-1\t, \t3-4 ",
        "bytes= 0-1,3-4",
        "bytes=0-1,,3-4",
        "bytes=,0-1, ,3-4,",
    ] {
        assert_eq!(both, parse_text(text, 10000), "{}", text);
    }
    for text in ["bytes=,", "bytes= , ,", "bytes= "] {
        assert_eq!(ResolvedRanges::Absent, parse_text(text, 10000), "{}", text);
    }
}

#[test]
fn a_range_that_ends_before_it_starts_is_skipped() {
    assert_eq!(ResolvedRanges::NotSatisfiable, parse_text("bytes=5-3", 10));
    assert_eq!(ResolvedRanges::Single(0..1), parse_text("bytes=5-3,0-0", 10));
}

#[test]
fn the_unit_is_read_in_either_case() {
    assert_eq!(ResolvedRanges::Single(0..500), parse_text("Bytes=0-499", 10000));
    assert_eq!(ResolvedRanges::Single(0..500), parse_text("BYTES=0-499", 10000));
    assert_eq!(ResolvedRanges::Absent, parse_text("byte=0-499", 10000));
    assert_eq!(ResolvedRanges::Absent, parse_text("bytes 0-499", 10000));
}
