//! The content codings that a client accepts.

use crate::headers::{
    all_visible, first_value, header_fields, is_empty_value, is_visible, value_bytes,
};
use crate::paths::lemma_split_join;
use crate::text::{
    after_prefix, all_blank, all_digits, digits_value, find_byte, first_index, is_blank, is_digit,
    lemma_first_index, lemma_first_index_lowered, lemma_first_index_unique, lemma_split_lowered,
    lemma_trim_between, lemma_trim_lowered, lemma_trim_parts, lower_bytes, lowered, same_bytes,
    split, split_bytes, strip_bytes, trim, trim_bytes,
};
use http::{HeaderMap, HeaderName, HeaderValue};
use vstd::prelude::*;
use vstd::slice::slice_subrange;
use vstd::string::StringSliceAdditionalSpecFns;

verus! {

/// What up to three decimal places are worth, in thousandths.
pub open spec fn thousandths(places: Seq<u8>) -> nat {
    if places.len() == 1 {
        digits_value(places) * 100
    } else if places.len() == 2 {
        digits_value(places) * 10
    } else {
        digits_value(places)
    }
}

/// The quality that `s` writes, in thousandths, by the grammar
/// ```text
/// qvalue = ( "0" [ "." 0*3DIGIT ] )
///        / ( "1" [ "." 0*3("0") ] )
/// ```
pub open spec fn qvalue(s: Seq<u8>) -> Option<u16> {
    let places = if s.len() > 2 {
        s.skip(2)
    } else {
        Seq::<u8>::empty()
    };
    if s.len() > 0 && (s.len() > 1 ==> s[1] == 46) && places.len() <= 3 && all_digits(places) {
        if s[0] == 48 {
            Some(thousandths(places) as u16)
        } else if s[0] == 49 && thousandths(places) == 0 {
            Some(1000)
        } else {
            None
        }
    } else {
        None
    }
}

/// A quality is at most 1, that is a thousand thousandths.
pub proof fn lemma_qvalue_bounded(s: Seq<u8>)
    ensures
        qvalue(s) matches Some(q) ==> q <= 1000,
{
    let d = if s.len() > 2 {
        s.skip(2)
    } else {
        Seq::<u8>::empty()
    };
    if d.len() <= 3 && all_digits(d) {
        lemma_places(d);
    }
}

/// Up to three digits, written out.
proof fn lemma_places(d: Seq<u8>)
    requires
        d.len() <= 3,
        all_digits(d),
    ensures
        d.len() == 0 ==> thousandths(d) == 0,
        d.len() == 1 ==> thousandths(d) == (d[0] - 48) * 100,
        d.len() == 2 ==> thousandths(d) == (d[0] - 48) * 100 + (d[1] - 48) * 10,
        d.len() == 3 ==> thousandths(d) == (d[0] - 48) * 100 + (d[1] - 48) * 10 + (d[2] - 48),
        thousandths(d) < 1000,
{
    reveal_with_fuel(digits_value, 4);
    if d.len() >= 1 {
        assert(is_digit(d[0]));
    }
    if d.len() >= 2 {
        assert(is_digit(d[1]));
        assert(d.drop_last()[0] == d[0]);
    }
    if d.len() >= 3 {
        assert(is_digit(d[2]));
        assert(d.drop_last()[1] == d[1]);
        assert(d.drop_last().drop_last()[0] == d[0]);
    }
}

/// Parses a quality into an integer in [0, 1000].
pub fn parse_qvalue(s: &str) -> (r: Result<u16, ()>)
    ensures
        match r {
            Ok(q) => qvalue(s.spec_bytes()) == Some(q),
            Err(()) => qvalue(s.spec_bytes()) is None,
        },
{
    quality(s.as_bytes())
}

/// Parses a quality, given as bytes.
fn quality(s: &[u8]) -> (r: Result<u16, ()>)
    ensures
        match r {
            Ok(q) => qvalue(s@) == Some(q) && q <= 1000,
            Err(()) => qvalue(s@) is None,
        },
{
    let len = s.len();
    if len == 0 || len > 5 || (len > 1 && s[1] != 46) {
        return Err(());
    }
    let ghost places = if len > 2 {
        s@.skip(2)
    } else {
        Seq::<u8>::empty()
    };
    let mut v0: u16 = 0;
    let mut v1: u16 = 0;
    let mut v2: u16 = 0;
    if len > 2 {
        let b = s[2];
        if b < 48 || b > 57 {
            assert(!is_digit(places[0]));
            return Err(());
        }
        v0 = (b - 48) as u16;
    }
    if len > 3 {
        let b = s[3];
        if b < 48 || b > 57 {
            assert(!is_digit(places[1]));
            return Err(());
        }
        v1 = (b - 48) as u16;
    }
    if len > 4 {
        let b = s[4];
        if b < 48 || b > 57 {
            assert(!is_digit(places[2]));
            return Err(());
        }
        v2 = (b - 48) as u16;
    }
    let value: u16 = v0 * 100 + v1 * 10 + v2;
    proof {
        assert forall|j: int| 0 <= j < places.len() implies is_digit(#[trigger] places[j]) by {
            assert(places[j] == s@[j + 2]);
        }
        lemma_places(places);
        assert(value == thousandths(places));
    }
    if s[0] == 48 {
        Ok(value)
    } else if s[0] == 49 && value == 0 {
        Ok(1000)
    } else {
        Err(())
    }
}

/// The compression styles supported by the client of a request.
#[derive(Debug, Copy, Clone, PartialEq, Eq, Structural)]
pub enum CompressionSupport {
    /// Use gzip compression.
    Gzip,
    /// Use brotli compression
    Brotli,
    /// Use brotli if available, otherwise gzip
    Both,
    /// Do not use compression.
    Neither,
}

impl CompressionSupport {
    /// The client takes brotli.
    pub open spec fn takes_brotli(self) -> bool {
        self is Brotli || self is Both
    }

    /// The client takes gzip.
    pub open spec fn takes_gzip(self) -> bool {
        self is Gzip || self is Both
    }

    /// Returns true if Brotli compression is supported.
    pub fn brotli(&self) -> (r: bool)
        ensures
            r == self.takes_brotli(),
    {
        matches!(self, CompressionSupport::Brotli | CompressionSupport::Both)
    }

    /// Returns true if Gzip compression is supported.
    pub fn gzip(&self) -> (r: bool)
        ensures
            r == self.takes_gzip(),
    {
        matches!(self, CompressionSupport::Gzip | CompressionSupport::Both)
    }
}

/// The qualities that a client gave to the codings that matter here, where it named them.
#[derive(Copy, Clone)]
pub struct Qualities {
    /// Of `gzip`.
    pub gzip: Option<u16>,
    /// Of `br`.
    pub br: Option<u16>,
    /// Of `identity`.
    pub identity: Option<u16>,
    /// Of `*`, which stands for all codings that are not named.
    pub star: Option<u16>,
}

/// The coding, in lower case, and the quality that one element of an `Accept-Encoding` list names;
/// a coding with no quality has the highest. Letters count the same in either case. `None` where
/// the element cannot be parsed.
pub open spec fn coding_and_quality(element: Seq<u8>) -> Option<(Seq<u8>, u16)> {
    let semicolon = first_index(element, 59);
    if semicolon >= element.len() {
        Some((lowered(trim(element)), 1000))
    } else {
        match after_prefix(lowered(trim(element.skip(semicolon + 1))), "q=".spec_bytes()) {
            Some(q) => match qvalue(q) {
                Some(quality) => Some((lowered(trim(element.take(semicolon))), quality)),
                None => None,
            },
            None => None,
        }
    }
}

/// The qualities after one more element has given `quality` to `coding`.
pub open spec fn with_quality(q: Qualities, coding: Seq<u8>, quality: u16) -> Qualities {
    if coding == "gzip".spec_bytes() {
        Qualities { gzip: Some(quality), ..q }
    } else if coding == "br".spec_bytes() {
        Qualities { br: Some(quality), ..q }
    } else if coding == "identity".spec_bytes() {
        Qualities { identity: Some(quality), ..q }
    } else if coding == "*".spec_bytes() {
        Qualities { star: Some(quality), ..q }
    } else {
        q
    }
}

/// The qualities that a list of elements gives, each coding that of its last element. `None`
/// where an element cannot be parsed.
pub open spec fn listed_qualities(elements: Seq<Seq<u8>>) -> Option<Qualities>
    decreases elements.len(),
{
    if elements.len() == 0 {
        Some(Qualities { gzip: None, br: None, identity: None, star: None })
    } else {
        match (listed_qualities(elements.drop_last()), coding_and_quality(elements.last())) {
            (Some(q), Some((coding, quality))) => Some(with_quality(q, coding, quality)),
            _ => None,
        }
    }
}

/// The quality of a coding: its own, else that of `*`, else zero.
pub open spec fn effective_quality(own: Option<u16>, star: Option<u16>) -> u16 {
    match own {
        Some(q) => q,
        None => match star {
            Some(q) => q,
            None => 0,
        },
    }
}

/// A coding is used where it is acceptable and no worse than sending the file as it is.
pub open spec fn is_usable(own: Option<u16>, q: Qualities) -> bool {
    let quality = effective_quality(own, q.star);
    quality > 0 && quality >= effective_quality(q.identity, q.star)
}

/// The codings that these qualities make usable.
pub open spec fn support_for(q: Qualities) -> CompressionSupport {
    if is_usable(q.gzip, q) && is_usable(q.br, q) {
        CompressionSupport::Both
    } else if is_usable(q.gzip, q) {
        CompressionSupport::Gzip
    } else if is_usable(q.br, q) {
        CompressionSupport::Brotli
    } else {
        CompressionSupport::Neither
    }
}

/// The codings that the text of an `Accept-Encoding` header makes usable: none where any element
/// of it cannot be parsed.
pub open spec fn accepted_codings(value: Seq<u8>) -> CompressionSupport {
    match listed_qualities(split(value, 44)) {
        Some(q) => support_for(q),
        None => CompressionSupport::Neither,
    }
}

/// The codings that a request with these header fields makes usable, by its first
/// `Accept-Encoding` header: none without that header, or where it is no text.
pub open spec fn request_codings(fields: Map<Seq<char>, Seq<Seq<u8>>>) -> CompressionSupport {
    if fields.contains_key("accept-encoding"@) && all_visible(fields["accept-encoding"@][0]) {
        accepted_codings(fields["accept-encoding"@][0])
    } else {
        CompressionSupport::Neither
    }
}

/// The codings that the text of an `Accept-Encoding` header makes usable.
pub fn codings_of(value: &[u8]) -> (r: CompressionSupport)
    ensures
        r == accepted_codings(value@),
{
    let elements = split_bytes(value, 44);
    let ghost pieces = split(value@, 44);
    let mut q = Qualities { gzip: None, br: None, identity: None, star: None };
    let mut i: usize = 0;
    assert(pieces.take(0) =~= Seq::<Seq<u8>>::empty());
    while i < elements.len()
        invariant
            pieces == split(value@, 44),
            elements@.map_values(|piece: &[u8]| piece@) == pieces,
            elements@.len() == pieces.len(),
            i <= pieces.len(),
            listed_qualities(pieces.take(i as int)) == Some(q),
        decreases pieces.len() - i,
    {
        let element = elements[i];
        let ghost seen = pieces.take(i + 1);
        assert(element@ == pieces[i as int]);
        assert(seen.drop_last() =~= pieces.take(i as int));
        assert(seen.last() == element@);
        match parse_element(element) {
            None => {
                proof {
                    lemma_unparsable(pieces, i + 1);
                }
                return CompressionSupport::Neither;
            },
            Some((coding, quality)) => {
                let coding = coding.as_slice();
                if same_bytes(coding, "gzip".as_bytes()) {
                    q.gzip = Some(quality);
                } else if same_bytes(coding, "br".as_bytes()) {
                    q.br = Some(quality);
                } else if same_bytes(coding, "identity".as_bytes()) {
                    q.identity = Some(quality);
                } else if same_bytes(coding, "*".as_bytes()) {
                    q.star = Some(quality);
                }
            },
        }
        i = i + 1;
    }
    assert(pieces.take(i as int) =~= pieces);
    let gzip_q = or_star(q.gzip, q.star);
    let br_q = or_star(q.br, q.star);
    // A representation without a coding is acceptable unless it was excluded, but a client that
    // names no quality for it has not preferred it to anything either.
    let identity_q = or_star(q.identity, q.star);
    // The file as it is can always be sent, so a coding that ranks below it need not be used.
    let use_gzip = gzip_q > 0 && gzip_q >= identity_q;
    let use_br = br_q > 0 && br_q >= identity_q;
    match (use_gzip, use_br) {
        (true, false) => CompressionSupport::Gzip,
        (false, true) => CompressionSupport::Brotli,
        (true, true) => CompressionSupport::Both,
        (false, false) => CompressionSupport::Neither,
    }
}

/// The quality of a coding: its own, else that of `*`, else zero.
fn or_star(own: Option<u16>, star: Option<u16>) -> (r: u16)
    ensures
        r == effective_quality(own, star),
{
    match own {
        Some(q) => q,
        None => match star {
            Some(q) => q,
            None => 0,
        },
    }
}

/// Parses one element of an `Accept-Encoding` list.
fn parse_element(element: &[u8]) -> (r: Option<(Vec<u8>, u16)>)
    ensures
        match r {
            Some((coding, quality)) => coding_and_quality(element@) == Some((coding@, quality)),
            None => coding_and_quality(element@) is None,
        },
{
    match find_byte(element, 59) {
        None => Some((lower_bytes(trim_bytes(element)), 1000)),
        Some(semicolon) => {
            let len = element.len();
            let head = slice_subrange(element, 0, semicolon);
            let tail = slice_subrange(element, semicolon + 1, len);
            assert(head@ =~= element@.take(semicolon as int));
            assert(tail@ =~= element@.skip(semicolon + 1));
            let weight = lower_bytes(trim_bytes(tail));
            match strip_bytes(weight.as_slice(), "q=".as_bytes()) {
                None => None,
                Some(q) => match quality(q) {
                    Ok(quality) => Some((lower_bytes(trim_bytes(head)), quality)),
                    Err(()) => None,
                },
            }
        },
    }
}

/// A list with an element that cannot be parsed gives no qualities.
proof fn lemma_unparsable(elements: Seq<Seq<u8>>, n: int)
    requires
        0 < n <= elements.len(),
        listed_qualities(elements.take(n)) is None,
    ensures
        listed_qualities(elements) is None,
    decreases elements.len() - n,
{
    if n < elements.len() {
        assert(elements.drop_last().take(n) =~= elements.take(n));
        lemma_unparsable(elements.drop_last(), n);
    } else {
        assert(elements.take(n) =~= elements);
    }
}

/// Returns the preferred compression to use when responding to the given request, if any.
///
/// Use via `detect_compression_support(req.headers())`.
///
/// Follows the rules of [RFC 7231 section
/// 5.3.4](https://tools.ietf.org/html/rfc7231#section-5.3.4).
///
/// Note that if both gzip and brotli are supported, brotli will be preferred by the server.
pub fn detect_compression_support(headers: &HeaderMap<HeaderValue>) -> (r: CompressionSupport)
    ensures
        r == request_codings(header_fields(*headers)),
{
    proof {
        lemma_empty_value();
        reveal_strlit("accept-encoding");
    }
    let name = HeaderName::from_static("accept-encoding");
    match first_value(headers, &name) {
        None => CompressionSupport::Neither,
        Some(v) => {
            if is_empty_value(v) {
                assert(value_bytes(*v) =~= Seq::<u8>::empty());
                CompressionSupport::Neither
            } else {
                match v.to_str() {
                    Ok(text) => codings_of(text.as_bytes()),
                    Err(_) => CompressionSupport::Neither,
                }
            }
        },
    }
}

/// An empty header accepts no coding.
proof fn lemma_empty_value()
    ensures
        accepted_codings(Seq::<u8>::empty()) == CompressionSupport::Neither,
{
    let e = Seq::<u8>::empty();
    let pieces = split(e, 44);
    assert(pieces =~= seq![e]);
    assert(pieces.drop_last() =~= Seq::<Seq<u8>>::empty());
    assert(first_index(e, 59) == 0);
    assert(trim(e) =~= e);
    assert(lowered(e) =~= e);
    broadcast use vstd::string::is_ascii_spec_bytes;
    reveal_strlit("gzip");
    reveal_strlit("br");
    reveal_strlit("identity");
    reveal_strlit("*");
    assert("gzip".is_ascii() && "br".is_ascii() && "identity".is_ascii() && "*".is_ascii());
    assert("gzip".spec_bytes().len() == 4);
    assert("br".spec_bytes().len() == 2);
    assert("identity".spec_bytes().len() == 8);
    assert("*".spec_bytes().len() == 1);
    reveal_with_fuel(listed_qualities, 2);
}

/// A coding that the client gave a quality of zero is never used, whatever `*` says.
pub proof fn lemma_zero_quality_excludes(q: Qualities)
    ensures
        q.gzip == Some(0u16) ==> !support_for(q).takes_gzip(),
        q.br == Some(0u16) ==> !support_for(q).takes_brotli(),
{
}

/// A coding that the client ranks below the file as it is, is never used.
pub proof fn lemma_preferred_identity_excludes(q: Qualities)
    ensures
        effective_quality(q.gzip, q.star) < effective_quality(q.identity, q.star)
            ==> !support_for(q).takes_gzip(),
        effective_quality(q.br, q.star) < effective_quality(q.identity, q.star)
            ==> !support_for(q).takes_brotli(),
{
}

/// A coding is used exactly where its quality is above zero and at least that of the file as it
/// is.
pub proof fn lemma_support_exact(q: Qualities)
    ensures
        support_for(q).takes_gzip() <==> is_usable(q.gzip, q),
        support_for(q).takes_brotli() <==> is_usable(q.br, q),
{
}

/// A header with an element that cannot be parsed makes no coding usable.
pub proof fn lemma_unparsable_header(value: Seq<u8>, i: int)
    requires
        0 <= i < split(value, 44).len(),
        coding_and_quality(split(value, 44)[i]) is None,
    ensures
        accepted_codings(value) == CompressionSupport::Neither,
{
    let elements = split(value, 44);
    let seen = elements.take(i + 1);
    assert(seen.last() == elements[i]);
    lemma_unparsable(elements, i + 1);
}

/// A coding whose name stands in no element, and that no `*` covers, is not used.
pub proof fn lemma_unnamed_coding_excluded(value: Seq<u8>)
    ensures
        !names_coding(value, "gzip".spec_bytes()) && !names_coding(value, "*".spec_bytes())
            ==> !accepted_codings(value).takes_gzip(),
        !names_coding(value, "br".spec_bytes()) && !names_coding(value, "*".spec_bytes())
            ==> !accepted_codings(value).takes_brotli(),
{
    lemma_unnamed(split(value, 44));
}

/// An element of the header names this coding.
pub open spec fn names_coding(value: Seq<u8>, coding: Seq<u8>) -> bool {
    lists_coding(split(value, 44), coding)
}

/// One of the elements names this coding.
pub open spec fn lists_coding(elements: Seq<Seq<u8>>, coding: Seq<u8>) -> bool {
    exists|i: int|
        0 <= i < elements.len() && (#[trigger] coding_and_quality(elements[i]) matches Some(
            (c, _),
        ) && c == coding)
}

/// Qualities come from elements only.
proof fn lemma_unnamed(elements: Seq<Seq<u8>>)
    ensures
        listed_qualities(elements) matches Some(q) ==> {
            &&& q.gzip is Some ==> lists_coding(elements, "gzip".spec_bytes())
            &&& q.br is Some ==> lists_coding(elements, "br".spec_bytes())
            &&& q.star is Some ==> lists_coding(elements, "*".spec_bytes())
        },
    decreases elements.len(),
{
    if elements.len() > 0 {
        let shorter = elements.drop_last();
        lemma_unnamed(shorter);
        assert(coding_and_quality(elements.last()) == coding_and_quality(
            elements[elements.len() - 1],
        ));
        assert forall|coding: Seq<u8>| #[trigger] lists_coding(shorter, coding) implies
            lists_coding(elements, coding) by {
            let i = choose|i: int|
                0 <= i < shorter.len() && (#[trigger] coding_and_quality(shorter[i]) matches Some(
                    (c, _),
                ) && c == coding);
            assert(elements[i] == shorter[i]);
            assert(coding_and_quality(elements[i]) is Some);
        }
    }
}

/// The letter case of an element does not matter.
proof fn lemma_element_case(element: Seq<u8>)
    ensures
        coding_and_quality(lowered(element)) == coding_and_quality(element),
{
    let n = first_index(element, 59);
    lemma_first_index(element, 59);
    lemma_first_index_lowered(element, 59);
    lemma_trim_lowered(element);
    assert(lowered(lowered(trim(element))) =~= lowered(trim(element)));
    if n < element.len() {
        let head = element.take(n);
        let tail = element.skip(n + 1);
        lemma_trim_lowered(head);
        lemma_trim_lowered(tail);
        assert(lowered(element).take(n) =~= lowered(head));
        assert(lowered(element).skip(n + 1) =~= lowered(tail));
        assert(lowered(lowered(trim(head))) =~= lowered(trim(head)));
        assert(lowered(lowered(trim(tail))) =~= lowered(trim(tail)));
    }
}

/// The letter case of the elements does not matter.
proof fn lemma_list_case(elements: Seq<Seq<u8>>)
    ensures
        listed_qualities(elements.map_values(|e: Seq<u8>| lowered(e))) == listed_qualities(
            elements,
        ),
    decreases elements.len(),
{
    let low = elements.map_values(|e: Seq<u8>| lowered(e));
    if elements.len() > 0 {
        lemma_list_case(elements.drop_last());
        assert(low.drop_last() =~= elements.drop_last().map_values(|e: Seq<u8>| lowered(e)));
        lemma_element_case(elements.last());
    }
}

/// Codings and the letter of a quality count the same in upper and in lower case.
pub proof fn lemma_case_does_not_matter(value: Seq<u8>)
    ensures
        accepted_codings(lowered(value)) == accepted_codings(value),
{
    lemma_split_lowered(value, 44);
    lemma_list_case(split(value, 44));
}

/// The quality that was given to this coding, of those that matter.
pub open spec fn quality_for(q: Qualities, coding: Seq<u8>) -> Option<u16> {
    if coding == "gzip".spec_bytes() {
        q.gzip
    } else if coding == "br".spec_bytes() {
        q.br
    } else if coding == "identity".spec_bytes() {
        q.identity
    } else if coding == "*".spec_bytes() {
        q.star
    } else {
        None
    }
}

/// A coding that matters here.
pub open spec fn matters(coding: Seq<u8>) -> bool {
    ||| coding == "gzip".spec_bytes()
    ||| coding == "br".spec_bytes()
    ||| coding == "identity".spec_bytes()
    ||| coding == "*".spec_bytes()
}

/// All codings that matter are different.
proof fn lemma_codings_differ()
    ensures
        "gzip".spec_bytes().len() == 4,
        "br".spec_bytes().len() == 2,
        "identity".spec_bytes().len() == 8,
        "*".spec_bytes().len() == 1,
{
    broadcast use vstd::string::is_ascii_spec_bytes;

    reveal_strlit("gzip");
    reveal_strlit("br");
    reveal_strlit("identity");
    reveal_strlit("*");
    assert("gzip".is_ascii() && "br".is_ascii() && "identity".is_ascii() && "*".is_ascii());
}

/// Every element can be parsed.
pub open spec fn all_parse(elements: Seq<Seq<u8>>) -> bool {
    forall|i: int| 0 <= i < elements.len() ==> #[trigger] coding_and_quality(elements[i]) is Some
}

/// No two elements name the same coding of those that matter.
pub open spec fn names_each_once(elements: Seq<Seq<u8>>) -> bool {
    forall|i: int, j: int|
        #![trigger coding_and_quality(elements[i]), coding_and_quality(elements[j])]
        0 <= i < j < elements.len() && coding_and_quality(elements[i]) is Some
            && coding_and_quality(elements[j]) is Some && matters(
            coding_and_quality(elements[i]).unwrap().0,
        ) ==> coding_and_quality(elements[i]).unwrap().0 != coding_and_quality(
            elements[j],
        ).unwrap().0
}

/// What the qualities of a list are: there are some where all elements can be parsed; and where
/// each coding is named once, its quality is that of the element that names it.
#[verifier::rlimit(40)]
proof fn lemma_listed_qualities(elements: Seq<Seq<u8>>)
    ensures
        listed_qualities(elements) is Some <==> all_parse(elements),
        all_parse(elements) && names_each_once(elements) ==> forall|i: int|
            0 <= i < elements.len() && matters(
                (#[trigger] coding_and_quality(elements[i])).unwrap().0,
            ) ==> quality_for(
                listed_qualities(elements).unwrap(),
                coding_and_quality(elements[i]).unwrap().0,
            ) == Some(coding_and_quality(elements[i]).unwrap().1),
        all_parse(elements) ==> forall|coding: Seq<u8>|
            (#[trigger] quality_for(listed_qualities(elements).unwrap(), coding)) is Some
                ==> lists_coding(elements, coding),
    decreases elements.len(),
{
    lemma_codings_differ();
    if elements.len() > 0 {
        let shorter = elements.drop_last();
        let n = elements.len() - 1;
        lemma_listed_qualities(shorter);
        assert forall|i: int| 0 <= i < n implies #[trigger] coding_and_quality(elements[i])
            == coding_and_quality(shorter[i]) by {}
        if all_parse(elements) {
            assert forall|i: int| 0 <= i < shorter.len() implies #[trigger] coding_and_quality(
                shorter[i],
            ) is Some by {
                assert(coding_and_quality(elements[i]) is Some);
            }
        }
        if all_parse(shorter) && coding_and_quality(elements.last()) is Some {
            assert forall|i: int| 0 <= i < elements.len() implies #[trigger] coding_and_quality(
                elements[i],
            ) is Some by {
                if i < n {
                    assert(coding_and_quality(shorter[i]) is Some);
                }
            }
        }
        if all_parse(elements) {
            assert(coding_and_quality(elements[n]) is Some);
            let before = listed_qualities(shorter).unwrap();
            let after = listed_qualities(elements).unwrap();
            let (coding, quality) = coding_and_quality(elements[n]).unwrap();
            assert(after == with_quality(before, coding, quality));
            if names_each_once(elements) {
                assert forall|i: int, j: int|
                    #![trigger coding_and_quality(shorter[i]), coding_and_quality(shorter[j])]
                    0 <= i < j < shorter.len() && coding_and_quality(shorter[i]) is Some
                        && coding_and_quality(shorter[j]) is Some && matters(
                        coding_and_quality(shorter[i]).unwrap().0,
                    ) implies coding_and_quality(shorter[i]).unwrap().0 != coding_and_quality(
                    shorter[j],
                ).unwrap().0 by {
                    assert(coding_and_quality(elements[i]) == coding_and_quality(shorter[i]));
                    assert(coding_and_quality(elements[j]) == coding_and_quality(shorter[j]));
                }
                assert forall|i: int|
                    0 <= i < elements.len() && matters(
                        (#[trigger] coding_and_quality(elements[i])).unwrap().0,
                    ) implies quality_for(after, coding_and_quality(elements[i]).unwrap().0)
                    == Some(coding_and_quality(elements[i]).unwrap().1) by {
                    if i < n {
                        assert(coding_and_quality(elements[i]) == coding_and_quality(shorter[i]));
                        assert(coding_and_quality(elements[i]).unwrap().0 != coding);
                    }
                }
            }
            assert forall|c: Seq<u8>| (#[trigger] quality_for(after, c)) is Some implies
                lists_coding(elements, c) by {
                if quality_for(before, c) is Some {
                    assert(lists_coding(shorter, c));
                    let i = choose|i: int|
                        0 <= i < shorter.len() && (#[trigger] coding_and_quality(
                            shorter[i],
                        ) matches Some((found, _)) && found == c);
                    assert(coding_and_quality(elements[i]) == coding_and_quality(shorter[i]));
                } else {
                    assert(c == coding);
                    assert(coding_and_quality(elements[n]) is Some);
                }
            }
        }
    }
}

/// The list `b` is the list `a` in another order, with elements of other codings added: `from[j]`
/// is the place in `a` of what stands at `j` in `b`, or negative where that was added.
pub open spec fn is_rearranged(a: Seq<Seq<u8>>, b: Seq<Seq<u8>>, from: Seq<int>) -> bool {
    &&& from.len() == b.len()
    &&& forall|j: int|
        0 <= j < from.len() ==> if #[trigger] from[j] >= 0 {
            from[j] < a.len() && coding_and_quality(b[j]) == coding_and_quality(a[from[j]])
        } else {
            coding_and_quality(b[j]) is Some && !matters(coding_and_quality(b[j]).unwrap().0)
        }
    &&& forall|j: int, k: int|
        0 <= j < k < from.len() && #[trigger] from[j] >= 0 ==> from[j] != #[trigger] from[k]
    &&& forall|i: int|
        0 <= i < a.len() ==> exists|j: int|
            0 <= j < from.len() && #[trigger] from[j] == i && #[trigger] coding_and_quality(a[i])
                == coding_and_quality(b[j])
}

/// Where no coding is named twice, neither the order of the elements matters, nor do elements of
/// other codings, with no quality or a valid one.
pub proof fn lemma_order_does_not_matter(a: Seq<u8>, b: Seq<u8>, from: Seq<int>)
    requires
        names_each_once(split(a, 44)),
        is_rearranged(split(a, 44), split(b, 44), from),
    ensures
        accepted_codings(b) == accepted_codings(a),
{
    let x = split(a, 44);
    let y = split(b, 44);
    lemma_listed_qualities(x);
    lemma_listed_qualities(y);
    if all_parse(x) {
        assert forall|j: int| 0 <= j < y.len() implies #[trigger] coding_and_quality(
            y[j],
        ) is Some by {
            if from[j] >= 0 {
                assert(coding_and_quality(x[from[j]]) is Some);
            }
        }
    } else {
        let i = choose|i: int|
            0 <= i < x.len() && !(#[trigger] coding_and_quality(x[i]) is Some);
        let j = choose|j: int|
            0 <= j < from.len() && #[trigger] from[j] == i && coding_and_quality(x[i])
                == coding_and_quality(y[j]);
        assert(!(coding_and_quality(y[j]) is Some));
    }
    if all_parse(x) {
        assert(names_each_once(y)) by {
            assert forall|j: int, k: int|
                #![trigger coding_and_quality(y[j]), coding_and_quality(y[k])]
                0 <= j < k < y.len() && coding_and_quality(y[j]) is Some && coding_and_quality(
                    y[k],
                ) is Some && matters(
                    coding_and_quality(y[j]).unwrap().0,
                ) implies coding_and_quality(y[j]).unwrap().0 != coding_and_quality(
                y[k],
            ).unwrap().0 by {
                assert(from[j] >= 0);
                if from[k] >= 0 {
                    assert(from[j] != from[k]);
                    assert(coding_and_quality(x[from[j]]) == coding_and_quality(y[j]));
                    assert(coding_and_quality(x[from[k]]) == coding_and_quality(y[k]));
                }
            }
        }
        let p = listed_qualities(x).unwrap();
        let q = listed_qualities(y).unwrap();
        assert forall|c: Seq<u8>| matters(c) implies #[trigger] quality_for(p, c) == quality_for(
            q,
            c,
        ) by {
            if quality_for(p, c) is Some {
                assert(lists_coding(x, c));
                let i = choose|i: int|
                    0 <= i < x.len() && (#[trigger] coding_and_quality(x[i]) matches Some(
                        (found, _),
                    ) && found == c);
                let j = choose|j: int|
                    0 <= j < from.len() && #[trigger] from[j] == i && coding_and_quality(x[i])
                        == coding_and_quality(y[j]);
                assert(coding_and_quality(y[j]).unwrap().0 == c);
            } else if quality_for(q, c) is Some {
                assert(lists_coding(y, c));
                let j = choose|j: int|
                    0 <= j < y.len() && (#[trigger] coding_and_quality(y[j]) matches Some(
                        (found, _),
                    ) && found == c);
                assert(from[j] >= 0);
                assert(coding_and_quality(x[from[j]]).unwrap().0 == c);
            }
        }
        lemma_codings_differ();
        assert(quality_for(p, "gzip".spec_bytes()) == quality_for(q, "gzip".spec_bytes()));
        assert(quality_for(p, "br".spec_bytes()) == quality_for(q, "br".spec_bytes()));
        assert(quality_for(p, "identity".spec_bytes()) == quality_for(q, "identity".spec_bytes()));
        assert(quality_for(p, "*".spec_bytes()) == quality_for(q, "*".spec_bytes()));
    }
}

/// The coding with `gzip` and `br` exchanged.
pub open spec fn exchanged(coding: Seq<u8>) -> Seq<u8> {
    if coding == "gzip".spec_bytes() {
        "br".spec_bytes()
    } else if coding == "br".spec_bytes() {
        "gzip".spec_bytes()
    } else {
        coding
    }
}

/// The elements of `b` are those of `a`, one for one, with the names `gzip` and `br` exchanged.
pub open spec fn has_names_exchanged(a: Seq<Seq<u8>>, b: Seq<Seq<u8>>) -> bool {
    &&& a.len() == b.len()
    &&& forall|i: int|
        0 <= i < a.len() ==> #[trigger] coding_and_quality(b[i]) == match coding_and_quality(a[i]) {
            Some((coding, quality)) => Some((exchanged(coding), quality)),
            None => None,
        }
}

/// The qualities of `gzip` and `br` go with their names.
proof fn lemma_qualities_exchanged(a: Seq<Seq<u8>>, b: Seq<Seq<u8>>)
    requires
        has_names_exchanged(a, b),
    ensures
        listed_qualities(b) == match listed_qualities(a) {
            Some(q) => Some(Qualities { gzip: q.br, br: q.gzip, ..q }),
            None => None,
        },
    decreases a.len(),
{
    lemma_codings_differ();
    if a.len() > 0 {
        let n = a.len() - 1;
        assert forall|i: int| 0 <= i < n implies #[trigger] coding_and_quality(b.drop_last()[i])
            == match coding_and_quality(a.drop_last()[i]) {
            Some((coding, quality)) => Some((exchanged(coding), quality)),
            None => None,
        } by {
            assert(coding_and_quality(b[i]) == coding_and_quality(b.drop_last()[i]));
        }
        lemma_qualities_exchanged(a.drop_last(), b.drop_last());
        assert(coding_and_quality(b[n]) == coding_and_quality(b.last()));
    }
}

/// Exchanging the names `gzip` and `br` in the elements exchanges the two answers.
pub proof fn lemma_exchanged_names(a: Seq<u8>, b: Seq<u8>)
    requires
        has_names_exchanged(split(a, 44), split(b, 44)),
    ensures
        accepted_codings(b).takes_gzip() == accepted_codings(a).takes_brotli(),
        accepted_codings(b).takes_brotli() == accepted_codings(a).takes_gzip(),
{
    lemma_qualities_exchanged(split(a, 44), split(b, 44));
}

/// The digit at a place of `s`; zero behind its end.
pub open spec fn digit_at(s: Seq<u8>, i: int) -> int {
    if i < s.len() {
        s[i] - 48
    } else {
        0
    }
}

/// `s` is one digit, or one digit, a point and up to three digits.
pub open spec fn is_decimal(s: Seq<u8>) -> bool {
    &&& 1 <= s.len() <= 5
    &&& s.len() > 1 ==> s[1] == 46
    &&& forall|i: int| 0 <= i < s.len() && i != 1 ==> 48 <= #[trigger] s[i] && s[i] <= 57
}

/// A quality is a decimal fraction with up to three places that is no more than one, and it is read
/// as that many thousandths. Nothing else is a quality.
pub proof fn lemma_qvalue(s: &str, r: Result<u16, ()>)
    requires
        call_ensures(parse_qvalue, (s,), r),
    ensures
        ({
            let b = s.spec_bytes();
            let n = digit_at(b, 0) * 1000 + digit_at(b, 2) * 100 + digit_at(b, 3) * 10 + digit_at(
                b,
                4,
            );
            &&& r is Ok <==> is_decimal(b) && n <= 1000
            &&& r matches Ok(q) ==> q == n
        }),
{
    lemma_quality_read(s.spec_bytes());
}

/// What a quality is read as.
proof fn lemma_quality_read(b: Seq<u8>)
    ensures
        ({
            let n = digit_at(b, 0) * 1000 + digit_at(b, 2) * 100 + digit_at(b, 3) * 10 + digit_at(
                b,
                4,
            );
            qvalue(b) == if is_decimal(b) && n <= 1000 {
                Some(n as u16)
            } else {
                None
            }
        }),
{
    let places = if b.len() > 2 {
        b.skip(2)
    } else {
        Seq::<u8>::empty()
    };
    let n = digit_at(b, 0) * 1000 + digit_at(b, 2) * 100 + digit_at(b, 3) * 10 + digit_at(b, 4);
    if is_decimal(b) {
        assert forall|i: int| 0 <= i < places.len() implies is_digit(#[trigger] places[i]) by {
            assert(places[i] == b[i + 2]);
        }
        lemma_places(places);
        assert(48 <= b[0] <= 57);
        assert(n == digit_at(b, 0) * 1000 + thousandths(places));
    } else if qvalue(b) is Some {
        assert forall|i: int| 0 <= i < b.len() && i != 1 implies 48 <= #[trigger] b[i] && b[i]
            <= 57 by {
            if i > 1 {
                assert(is_digit(places[i - 2]));
            }
        }
    }
}

/// A coding alone, between spaces and tabs, has the quality one.
pub proof fn lemma_unweighted_element(front: Seq<u8>, coding: Seq<u8>, back: Seq<u8>)
    requires
        all_blank(front),
        all_blank(back),
        coding.len() > 0 ==> !is_blank(coding[0]) && !is_blank(coding.last()),
        !coding.contains(59u8),
    ensures
        coding_and_quality(front + coding + back) == Some((lowered(coding), 1000u16)),
{
    let element = front + coding + back;
    lemma_trim_between(front, coding, back);
    assert forall|i: int| 0 <= i < element.len() implies element[i] != 59 by {
        if i < front.len() {
            assert(element[i] == front[i]);
        } else if i < front.len() + coding.len() {
            assert(element[i] == coding[i - front.len()]);
        } else {
            assert(element[i] == back[i - front.len() - coding.len()]);
        }
    }
    lemma_first_index_unique(element, 59, element.len() as int);
}

/// The bytes of `q=`.
proof fn lemma_weight_name()
    ensures
        "q=".spec_bytes() == seq![113u8, 61u8],
{
    broadcast use vstd::string::is_ascii_spec_bytes;

    reveal_strlit("q=");
    assert("q=".is_ascii());
    assert("q=".spec_bytes() =~= seq![113u8, 61u8]);
}

/// A coding with a weight behind a semicolon has the quality that `q=`, in either case, gives it;
/// spaces and tabs round the coding and round the weight do not matter. Where that is no quality,
/// the element cannot be parsed.
pub proof fn lemma_weighted_element(head: Seq<u8>, front: Seq<u8>, q: u8, s: Seq<u8>, back: Seq<u8>)
    requires
        !head.contains(59u8),
        all_blank(front),
        all_blank(back),
        q == 113 || q == 81,
        s.len() > 0 ==> !is_blank(s.last()),
    ensures
        ({
            let element = head + seq![59u8] + (front + (seq![q, 61u8] + s) + back);
            let n = digit_at(s, 0) * 1000 + digit_at(s, 2) * 100 + digit_at(s, 3) * 10 + digit_at(
                s,
                4,
            );
            coding_and_quality(element) == if is_decimal(s) && n <= 1000 {
                Some((coding_and_quality(head).unwrap().0, n as u16))
            } else {
                None
            }
        }),
        coding_and_quality(head) is Some,
{
    let weight = seq![q, 61u8] + s;
    let tail = front + weight + back;
    let element = head + seq![59u8] + tail;
    assert forall|i: int| 0 <= i < head.len() implies element[i] != 59 && head[i] != 59 by {
        assert(element[i] == head[i]);
        assert(head.contains(head[i]));
    }
    lemma_first_index_unique(element, 59, head.len() as int);
    lemma_first_index_unique(head, 59, head.len() as int);
    assert(element.take(head.len() as int) =~= head);
    assert(element.skip(head.len() as int + 1) =~= tail);
    assert(weight.last() == if s.len() > 0 {
        s.last()
    } else {
        61u8
    });
    lemma_trim_between(front, weight, back);
    lemma_weight_name();
    let low = lowered(weight);
    assert(low =~= seq![113u8, 61u8] + lowered(s));
    assert(low.skip(2) =~= lowered(s));
    assert(after_prefix(low, "q=".spec_bytes()) == Some(lowered(s)));
    lemma_quality_read(s);
    lemma_quality_read(lowered(s));
    assert(s.len() == lowered(s).len());
    if is_decimal(lowered(s)) {
        assert forall|i: int| 0 <= i < s.len() && i != 1 implies 48 <= #[trigger] s[i] && s[i]
            <= 57 by {
            assert(48 <= lowered(s)[i] <= 57);
        }
        assert(s.len() > 1 ==> lowered(s)[1] == 46);
    }
    if is_decimal(s) {
        assert(lowered(s) =~= s);
    }
}

/// An element that can be parsed and holds a semicolon has nothing but a weight behind it.
pub proof fn lemma_form_of_element(element: Seq<u8>) -> (parts: (
    Seq<u8>,
    Seq<u8>,
    u8,
    Seq<u8>,
    Seq<u8>,
))
    requires
        coding_and_quality(element) is Some,
        element.contains(59u8),
    ensures
        element == parts.0 + seq![59u8] + (parts.1 + (seq![parts.2, 61u8] + parts.3) + parts.4),
        !parts.0.contains(59u8),
        all_blank(parts.1),
        all_blank(parts.4),
        parts.2 == 113 || parts.2 == 81,
        is_decimal(parts.3),
{
    let n = first_index(element, 59);
    lemma_first_index(element, 59);
    let at = choose|i: int| 0 <= i < element.len() && element[i] == 59;
    assert(n <= at);
    let head = element.take(n);
    let tail = element.skip(n + 1);
    let ends = lemma_trim_parts(tail);
    let weight = trim(tail);
    let low = lowered(weight);
    lemma_weight_name();
    assert(low.len() == weight.len());
    assert("q=".spec_bytes().is_prefix_of(low));
    assert(low[0] == seq![113u8, 61u8][0] && low[1] == seq![113u8, 61u8][1]);
    assert(weight[0] == 113 || weight[0] == 81);
    assert(weight[1] == 61);
    let s = weight.skip(2);
    assert(low.skip(2) =~= lowered(s));
    lemma_quality_read(lowered(s));
    assert(s.len() == lowered(s).len());
    assert forall|i: int| 0 <= i < s.len() && i != 1 implies 48 <= #[trigger] s[i] && s[i]
        <= 57 by {
        assert(48 <= lowered(s)[i] <= 57);
    }
    assert(s.len() > 1 ==> lowered(s)[1] == 46);
    assert(is_decimal(s));
    let parts = (head, tail.take(ends.0), weight[0], s, tail.skip(ends.1));
    assert(weight =~= seq![weight[0], 61u8] + s);
    assert(tail =~= parts.1 + weight + parts.4);
    assert(element =~= head + seq![59u8] + tail);
    parts
}

/// The elements of a header in which one stands between others.
proof fn lemma_element_between(before: Seq<u8>, element: Seq<u8>, after: Seq<u8>)
    requires
        before.len() > 0 ==> before.last() == 44,
        after.len() > 0 ==> after[0] == 44,
        !element.contains(44u8),
    ensures
        split(before + element + after, 44) == (if before.len() > 0 {
            split(before.drop_last(), 44)
        } else {
            Seq::empty()
        }) + seq![element] + (if after.len() > 0 {
            split(after.skip(1), 44)
        } else {
            Seq::empty()
        }),
{
    assert forall|i: int| 0 <= i < element.len() implies element[i] != 44 by {
        assert(element.contains(element[i]));
    }
    lemma_first_index_unique(element, 44, element.len() as int);
    assert(split(element, 44) =~= seq![element]);
    let none = Seq::<Seq<u8>>::empty();
    let last = if after.len() > 0 {
        split(after.skip(1), 44)
    } else {
        none
    };
    if after.len() > 0 {
        lemma_split_join(element, after.skip(1), 44);
        assert(element + after =~= element.push(44u8) + after.skip(1));
    } else {
        assert(element + after =~= element);
        assert(seq![element] + none =~= seq![element]);
    }
    assert(split(element + after, 44) == seq![element] + last);
    assert(before + element + after =~= before + (element + after));
    if before.len() > 0 {
        lemma_split_join(before.drop_last(), element + after, 44);
        assert(before =~= before.drop_last().push(44u8));
        assert(split(before.drop_last(), 44) + (seq![element] + last) =~= split(
            before.drop_last(),
            44,
        ) + seq![element] + last);
    } else {
        assert(before + element + after =~= element + after);
        assert(none + seq![element] + last =~= seq![element] + last);
    }
}

/// An element may stand for another of the same coding and quality.
proof fn lemma_replaced_element(a: Seq<Seq<u8>>, x: Seq<u8>, y: Seq<u8>, b: Seq<Seq<u8>>)
    requires
        coding_and_quality(x) == coding_and_quality(y),
    ensures
        listed_qualities(a + seq![x] + b) == listed_qualities(a + seq![y] + b),
    decreases b.len(),
{
    let p = a + seq![x] + b;
    let q = a + seq![y] + b;
    if b.len() == 0 {
        assert(p.drop_last() =~= a);
        assert(q.drop_last() =~= a);
        assert(p.last() == x && q.last() == y);
    } else {
        assert(p.drop_last() =~= a + seq![x] + b.drop_last());
        assert(q.drop_last() =~= a + seq![y] + b.drop_last());
        assert(p.last() == b.last() && q.last() == b.last());
        lemma_replaced_element(a, x, y, b.drop_last());
    }
}

/// Two elements that give the same quality to the same coding, or that cannot be parsed either,
/// stand for each other in every header.
pub proof fn lemma_like_elements(before: Seq<u8>, x: Seq<u8>, y: Seq<u8>, after: Seq<u8>)
    requires
        before.len() > 0 ==> before.last() == 44,
        after.len() > 0 ==> after[0] == 44,
        !x.contains(44u8),
        !y.contains(44u8),
        coding_and_quality(x) == coding_and_quality(y),
    ensures
        accepted_codings(before + x + after) == accepted_codings(before + y + after),
{
    lemma_element_between(before, x, after);
    lemma_element_between(before, y, after);
    lemma_replaced_element(
        if before.len() > 0 {
            split(before.drop_last(), 44)
        } else {
            Seq::empty()
        },
        x,
        y,
        if after.len() > 0 {
            split(after.skip(1), 44)
        } else {
            Seq::empty()
        },
    );
}

/// A coding without a weight has the quality one, as it has with `;q=1` behind it.
proof fn lemma_plain_element(coding: Seq<u8>)
    requires
        !coding.contains(59u8),
    ensures
        coding_and_quality(coding) == Some((lowered(trim(coding)), 1000u16)),
        coding_and_quality(coding + seq![59u8, 113u8, 61u8, 49u8]) == coding_and_quality(coding),
{
    let none = Seq::<u8>::empty();
    let ends = lemma_trim_parts(coding);
    let name = trim(coding);
    assert(coding =~= coding.take(ends.0) + name + coding.skip(ends.1));
    assert forall|i: int| 0 <= i < name.len() implies name[i] != 59 by {
        assert(name[i] == coding[ends.0 + i]);
        assert(coding.contains(coding[ends.0 + i]));
    }
    lemma_unweighted_element(coding.take(ends.0), name, coding.skip(ends.1));
    lemma_weighted_element(coding, none, 113, seq![49u8], none);
    assert(coding + seq![59u8, 113u8, 61u8, 49u8] =~= coding + seq![59u8] + (none + (seq![
        113u8,
        61u8,
    ] + seq![49u8]) + none));
}

/// In every header, a coding without a weight may as well have `;q=1` behind it.
pub proof fn lemma_no_weight_is_one(before: Seq<u8>, coding: Seq<u8>, after: Seq<u8>)
    requires
        before.len() > 0 ==> before.last() == 44,
        after.len() > 0 ==> after[0] == 44,
        !coding.contains(44u8),
        !coding.contains(59u8),
    ensures
        accepted_codings(before + coding + after) == accepted_codings(
            before + (coding + seq![59u8, 113u8, 61u8, 49u8]) + after,
        ),
        coding_and_quality(coding) == Some((lowered(trim(coding)), 1000u16)),
{
    let weighted = coding + seq![59u8, 113u8, 61u8, 49u8];
    lemma_plain_element(coding);
    assert forall|i: int| 0 <= i < weighted.len() implies weighted[i] != 44 by {
        if i < coding.len() {
            assert(coding.contains(weighted[i]));
        }
    }
    lemma_like_elements(before, coding, weighted, after);
}

/// The last of the elements that name the coding gives it this quality.
pub open spec fn last_gives(elements: Seq<Seq<u8>>, coding: Seq<u8>, quality: u16) -> bool {
    exists|i: int|
        {
            &&& 0 <= i < elements.len()
            &&& #[trigger] coding_and_quality(elements[i]) == Some((coding, quality))
            &&& !lists_coding(elements.skip(i + 1), coding)
        }
}

/// The coding has this quality among the elements: that of its own last element, else that of the
/// last `*`, else none.
pub open spec fn ranks(elements: Seq<Seq<u8>>, coding: Seq<u8>, quality: u16) -> bool {
    ||| last_gives(elements, coding, quality)
    ||| !lists_coding(elements, coding) && last_gives(elements, "*".spec_bytes(), quality)
    ||| !lists_coding(elements, coding) && !lists_coding(elements, "*".spec_bytes()) && quality == 0
}

/// What a list says of a coding: what its last element says, and nothing where it has none.
proof fn lemma_last_quality(elements: Seq<Seq<u8>>, coding: Seq<u8>, quality: u16)
    requires
        all_parse(elements),
        matters(coding),
    ensures
        listed_qualities(elements) is Some,
        last_gives(elements, coding, quality) ==> quality_for(
            listed_qualities(elements).unwrap(),
            coding,
        ) == Some(quality),
        !lists_coding(elements, coding) ==> quality_for(
            listed_qualities(elements).unwrap(),
            coding,
        ) is None,
    decreases elements.len(),
{
    lemma_listed_qualities(elements);
    lemma_codings_differ();
    if last_gives(elements, coding, quality) {
        let n = elements.len() - 1;
        let shorter = elements.drop_last();
        let i = choose|i: int|
            {
                &&& 0 <= i < elements.len()
                &&& #[trigger] coding_and_quality(elements[i]) == Some((coding, quality))
                &&& !lists_coding(elements.skip(i + 1), coding)
            };
        assert(coding_and_quality(elements[n]) is Some);
        assert forall|j: int| 0 <= j < shorter.len() implies #[trigger] coding_and_quality(
            shorter[j],
        ) is Some by {
            assert(coding_and_quality(elements[j]) is Some);
        }
        lemma_listed_qualities(shorter);
        if i < n {
            let tail = elements.skip(i + 1);
            assert(tail[n - i - 1] == elements[n]);
            assert(coding_and_quality(tail[n - i - 1]).unwrap().0 != coding);
            assert(!lists_coding(shorter.skip(i + 1), coding)) by {
                let less = shorter.skip(i + 1);
                if lists_coding(less, coding) {
                    let j = choose|j: int|
                        0 <= j < less.len() && (#[trigger] coding_and_quality(less[j]) matches Some(
                            (c, _),
                        ) && c == coding);
                    assert(tail[j] == less[j]);
                    assert(coding_and_quality(tail[j]) is Some);
                }
            }
            assert(coding_and_quality(shorter[i]) == Some((coding, quality)));
            assert(last_gives(shorter, coding, quality));
            lemma_last_quality(shorter, coding, quality);
        }
    }
}

/// A coding is used exactly where its quality is above zero and no less than that of the file as it
/// is. Of several elements for one coding the last counts; `*` speaks for codings that no element
/// names, and one that nothing speaks for has the quality zero.
pub proof fn lemma_ranking(value: Seq<u8>, gzip: u16, br: u16, identity: u16)
    requires
        all_parse(split(value, 44)),
        ranks(split(value, 44), "gzip".spec_bytes(), gzip),
        ranks(split(value, 44), "br".spec_bytes(), br),
        ranks(split(value, 44), "identity".spec_bytes(), identity),
    ensures
        accepted_codings(value).takes_gzip() <==> gzip > 0 && gzip >= identity,
        accepted_codings(value).takes_brotli() <==> br > 0 && br >= identity,
{
    let elements = split(value, 44);
    lemma_codings_differ();
    lemma_last_quality(elements, "gzip".spec_bytes(), gzip);
    lemma_last_quality(elements, "br".spec_bytes(), br);
    lemma_last_quality(elements, "identity".spec_bytes(), identity);
    lemma_last_quality(elements, "*".spec_bytes(), gzip);
    lemma_last_quality(elements, "*".spec_bytes(), br);
    lemma_last_quality(elements, "*".spec_bytes(), identity);
}

/// No element gives a quality above one.
proof fn lemma_element_bounded(element: Seq<u8>)
    ensures
        coding_and_quality(element) matches Some((_, quality)) ==> quality <= 1000,
{
    let n = first_index(element, 59);
    if n < element.len() {
        if let Some(q) = after_prefix(
            lowered(trim(element.skip(n + 1))),
            "q=".spec_bytes(),
        ) {
            lemma_qvalue_bounded(q);
        }
    }
}

/// A quality of a coding in a list, where all elements can be parsed.
proof fn lemma_some_rank(elements: Seq<Seq<u8>>, coding: Seq<u8>) -> (quality: u16)
    ensures
        ranks(elements, coding, quality),
        quality <= 1000,
    decreases elements.len(),
{
    if lists_coding(elements, coding) {
        lemma_last_of_listed(elements, coding)
    } else if lists_coding(elements, "*".spec_bytes()) {
        lemma_last_of_listed(elements, "*".spec_bytes())
    } else {
        0
    }
}

/// Where a coding is listed, one of its elements is the last.
proof fn lemma_last_of_listed(elements: Seq<Seq<u8>>, coding: Seq<u8>) -> (quality: u16)
    requires
        lists_coding(elements, coding),
    ensures
        last_gives(elements, coding, quality),
        quality <= 1000,
    decreases elements.len(),
{
    let i = choose|i: int|
        0 <= i < elements.len() && (#[trigger] coding_and_quality(elements[i]) matches Some(
            (c, _),
        ) && c == coding);
    let tail = elements.skip(i + 1);
    if lists_coding(tail, coding) {
        let quality = lemma_last_of_listed(tail, coding);
        let j = choose|j: int|
            {
                &&& 0 <= j < tail.len()
                &&& #[trigger] coding_and_quality(tail[j]) == Some((coding, quality))
                &&& !lists_coding(tail.skip(j + 1), coding)
            };
        assert(tail[j] == elements[i + 1 + j]);
        assert(tail.skip(j + 1) =~= elements.skip(i + 1 + j + 1));
        assert(coding_and_quality(elements[i + 1 + j]) == Some((coding, quality)));
        quality
    } else {
        lemma_element_bounded(elements[i]);
        coding_and_quality(elements[i]).unwrap().1
    }
}

/// A coding that is named without a weight, and not again behind, is always used, whatever quality
/// the file as it is was given.
pub proof fn lemma_unweighted_coding_is_used(value: Seq<u8>, i: int)
    requires
        all_parse(split(value, 44)),
        0 <= i < split(value, 44).len(),
        !split(value, 44)[i].contains(59u8),
    ensures
        lowered(trim(split(value, 44)[i])) == "gzip".spec_bytes() && !lists_coding(
            split(value, 44).skip(i + 1),
            "gzip".spec_bytes(),
        ) ==> accepted_codings(value).takes_gzip(),
        lowered(trim(split(value, 44)[i])) == "br".spec_bytes() && !lists_coding(
            split(value, 44).skip(i + 1),
            "br".spec_bytes(),
        ) ==> accepted_codings(value).takes_brotli(),
{
    let elements = split(value, 44);
    let element = elements[i];
    lemma_plain_element(element);
    let identity = lemma_some_rank(elements, "identity".spec_bytes());
    let gzip = lemma_some_rank(elements, "gzip".spec_bytes());
    let br = lemma_some_rank(elements, "br".spec_bytes());
    if lowered(trim(element)) == "gzip".spec_bytes() && !lists_coding(
        elements.skip(i + 1),
        "gzip".spec_bytes(),
    ) {
        assert(last_gives(elements, "gzip".spec_bytes(), 1000));
        lemma_ranking(value, 1000, br, identity);
    }
    if lowered(trim(element)) == "br".spec_bytes() && !lists_coding(
        elements.skip(i + 1),
        "br".spec_bytes(),
    ) {
        assert(last_gives(elements, "br".spec_bytes(), 1000));
        lemma_ranking(value, gzip, 1000, identity);
    }
}

/// What a request accepts is what the first of its `Accept-Encoding` headers says, where that is
/// text; a request without one accepts nothing.
pub proof fn lemma_request(headers: &HeaderMap<HeaderValue>, r: CompressionSupport)
    requires
        call_ensures(detect_compression_support, (headers,), r),
    ensures
        ({
            let fields = header_fields(*headers);
            let value = fields["accept-encoding"@][0];
            let is_text = forall|i: int|
                0 <= i < value.len() ==> (32 <= #[trigger] value[i] && value[i] <= 126) || value[i]
                    == 9;
            r == if fields.contains_key("accept-encoding"@) && is_text {
                accepted_codings(value)
            } else {
                CompressionSupport::Neither
            }
        }),
{
    let value = header_fields(*headers)["accept-encoding"@][0];
    if forall|i: int|
        0 <= i < value.len() ==> (32 <= #[trigger] value[i] && value[i] <= 126) || value[i] == 9 {
        assert forall|i: int| 0 <= i < value.len() implies is_visible(#[trigger] value[i]) by {}
    } else {
        let i = choose|i: int|
            0 <= i < value.len() && !((32 <= #[trigger] value[i] && value[i] <= 126) || value[i]
                == 9);
        assert(!is_visible(value[i]));
    }
}

/// The text of a header is read as a whole.
pub proof fn lemma_codings_of(value: &[u8], r: CompressionSupport)
    requires
        call_ensures(codings_of, (value,), r),
    ensures
        r == accepted_codings(value@),
{
}

/// The two questions on what is supported, for each answer there is.
pub proof fn lemma_support(s: &CompressionSupport, brotli: bool, gzip: bool)
    requires
        call_ensures(CompressionSupport::brotli, (s,), brotli),
        call_ensures(CompressionSupport::gzip, (s,), gzip),
    ensures
        *s == CompressionSupport::Both <==> brotli && gzip,
        *s == CompressionSupport::Brotli <==> brotli && !gzip,
        *s == CompressionSupport::Gzip <==> !brotli && gzip,
        *s == CompressionSupport::Neither <==> !brotli && !gzip,
        brotli == s.takes_brotli(),
        gzip == s.takes_gzip(),
{
}

} // verus!
