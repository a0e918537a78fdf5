//! The byte ranges that a request asks for.

use crate::headers::{all_visible, value_bytes};
use crate::paths::lemma_split_join;
use crate::text::{
    all_blank, all_digits, decimal_digits, decimal_u64, find_byte, first_index, is_blank, is_digit,
    lemma_decimal_round_trip, lemma_first_index, lemma_first_index_unique, lemma_trim_between,
    lemma_trim_parts, lemma_zeros_in_front, lower_bytes, lowered, parse_u64, split, split_bytes,
    strip_bytes, trim, trim_bytes,
};
use http::HeaderValue;
use std::ops::Range;
use vstd::prelude::*;
use vstd::slice::slice_subrange;
use vstd::string::StringSliceAdditionalSpecFns;

verus! {

/// Represents a `Range:` header which has been parsed and resolved to a particular entity length.
#[derive(Debug, Eq, PartialEq)]
pub enum ResolvedRanges {
    /// No `Range:` header was supplied, or one that is ignored because it cannot be parsed.
    Absent,
    /// A `Range:` header was supplied, but none of the ranges were possible to satisfy with the
    /// given entity length.
    NotSatisfiable,
    /// A `Range:` header was supplied with one satisfiable range.
    /// Non-satisfiable ranges have been dropped. Ranges are converted from the HTTP closed
    /// interval style to the the std::ops::Range half-open interval style (start inclusive, end
    /// exclusive).
    Single(Range<u64>),
    /// A `Range:` header was supplied with multiple satisfiable ranges. Non-satisfiable ranges
    /// have been dropped.
    Multiple(Vec<Range<u64>>),
}

/// What one element of a byte-range-set asks for.
pub enum RangeSpec {
    /// All from the first position, up to and with the last where one is given.
    From(u64, Option<u64>),
    /// This many bytes at the end.
    Suffix(u64),
}

/// Parses one element of a byte-range-set, between the spaces and tabs round it:
/// ```text
/// byte-range-spec = first-byte-pos "-" [ last-byte-pos ]
/// suffix-byte-range-spec = "-" suffix-length
/// ```
pub open spec fn range_spec(element: Seq<u8>) -> Option<RangeSpec> {
    let r = trim(element);
    let hyphen = first_index(r, 45);
    if hyphen >= r.len() {
        None
    } else if hyphen == 0 {
        match decimal_u64(r.skip(1)) {
            Some(n) => Some(RangeSpec::Suffix(n)),
            None => None,
        }
    } else {
        match decimal_u64(r.take(hyphen)) {
            None => None,
            Some(first) => if hyphen + 1 >= r.len() {
                Some(RangeSpec::From(first, None))
            } else {
                match decimal_u64(r.skip(hyphen + 1)) {
                    Some(last) => Some(RangeSpec::From(first, Some(last))),
                    None => None,
                }
            },
        }
    }
}

/// The range of an entity of `len` bytes that an element resolves to, where it can be satisfied.
pub open spec fn resolve(asked: RangeSpec, len: u64) -> Option<Range<u64>> {
    match asked {
        RangeSpec::Suffix(n) => if n == 0 || len == 0 {
            None
        } else if n >= len {
            Some(Range { start: 0, end: len })
        } else {
            Some(Range { start: (len - n) as u64, end: len })
        },
        RangeSpec::From(first, last) => {
            let end = match last {
                Some(last) => if last < len {
                    (last + 1) as u64
                } else {
                    len
                },
                None => len,
            };
            if first >= end {
                None
            } else {
                Some(Range { start: first, end })
            }
        },
    }
}

/// The satisfiable ranges that the elements of a byte-range-set ask for, in their order. `None`
/// where an element cannot be parsed.
pub open spec fn resolve_all(elements: Seq<Seq<u8>>, len: u64) -> Option<Seq<Range<u64>>>
    decreases elements.len(),
{
    if elements.len() == 0 {
        Some(Seq::empty())
    } else {
        match (resolve_all(elements.drop_last(), len), range_spec(elements.last())) {
            (Some(ranges), Some(asked)) => match resolve(asked, len) {
                Some(range) => Some(ranges.push(range)),
                None => Some(ranges),
            },
            _ => None,
        }
    }
}

/// The elements of a list without those that are blank: a list may have commas in front, behind
/// and in a row.
pub open spec fn listed(elements: Seq<Seq<u8>>) -> Seq<Seq<u8>>
    decreases elements.len(),
{
    if elements.len() == 0 {
        Seq::empty()
    } else if trim(elements.last()).len() == 0 {
        listed(elements.drop_last())
    } else {
        listed(elements.drop_last()).push(elements.last())
    }
}

/// The ranges that a byte-range-set asks for: it has one element at least. `None` where it cannot
/// be parsed.
pub open spec fn resolve_set(set: Seq<u8>, len: u64) -> Option<Seq<Range<u64>>> {
    let elements = listed(split(set, 44));
    if elements.len() == 0 {
        None
    } else {
        resolve_all(elements, len)
    }
}

/// The byte-range-set in the text of a `Range:` header, behind the unit, whose letters may be in
/// either case. `None` where the unit is another.
pub open spec fn byte_range_set(text: Seq<u8>) -> Option<Seq<u8>> {
    if "bytes=".spec_bytes().is_prefix_of(lowered(text)) {
        Some(text.skip("bytes=".spec_bytes().len() as int))
    } else {
        None
    }
}

/// The ranges that the text of a `Range:` header asks for. `None` where it is of another unit or
/// cannot be parsed.
pub open spec fn requested_ranges(text: Seq<u8>, len: u64) -> Option<Seq<Range<u64>>> {
    match byte_range_set(text) {
        Some(set) => resolve_set(set, len),
        None => None,
    }
}

impl ResolvedRanges {
    /// These are the resolved ranges: `None` says that there is no range header to heed.
    pub open spec fn resolves(self, ranges: Option<Seq<Range<u64>>>) -> bool {
        match ranges {
            None => self is Absent,
            Some(ranges) => if ranges.len() == 0 {
                self is NotSatisfiable
            } else if ranges.len() == 1 {
                self matches ResolvedRanges::Single(range) && range == ranges[0]
            } else {
                self matches ResolvedRanges::Multiple(all) && all@ == ranges
            },
        }
    }
}

/// Parses the byte-range-set in the range header as described in [RFC 7233 section
/// 2.1](https://tools.ietf.org/html/rfc7233#section-2.1).
pub fn parse(range: Option<&HeaderValue>, len: u64) -> (r: ResolvedRanges)
    ensures
        r.resolves(
            match range {
                Some(value) => if all_visible(value_bytes(*value)) {
                    requested_ranges(value_bytes(*value), len)
                } else {
                    None
                },
                None => None,
            },
        ),
{
    match range {
        None => ResolvedRanges::Absent,
        Some(value) => match value.to_str() {
            Err(_) => ResolvedRanges::Absent,
            Ok(text) => parse_text(text, len),
        },
    }
}

/// Parses the text of a range header.
pub fn parse_text(text: &str, len: u64) -> (r: ResolvedRanges)
    ensures
        r.resolves(requested_ranges(text.spec_bytes(), len)),
{
    let bytes = text.as_bytes();
    let unit = "bytes=".as_bytes();
    if strip_bytes(lower_bytes(bytes).as_slice(), unit).is_none() {
        return ResolvedRanges::Absent;
    }
    let set = slice_subrange(bytes, unit.len(), bytes.len());
    assert(set@ =~= bytes@.skip(unit@.len() as int));
    let pieces = split_bytes(set, 44);
    let ghost all = split(set@, 44);
    let mut ranges: Vec<Range<u64>> = Vec::with_capacity(2);
    let mut is_list = false;
    let mut i: usize = 0;
    assert(all.take(0) =~= Seq::<Seq<u8>>::empty());
    while i < pieces.len()
        invariant
            all == split(set@, 44),
            pieces@.map_values(|piece: &[u8]| piece@) == all,
            pieces@.len() == all.len(),
            i <= all.len(),
            is_list == (listed(all.take(i as int)).len() > 0),
            resolve_all(listed(all.take(i as int)), len) == Some(ranges@),
            requested_ranges(text.spec_bytes(), len) == resolve_set(set@, len),
        decreases all.len() - i,
    {
        let piece = pieces[i];
        let ghost seen = all.take(i + 1);
        let ghost before = listed(all.take(i as int));
        assert(piece@ == all[i as int]);
        assert(seen.drop_last() =~= all.take(i as int));
        assert(seen.last() == piece@);
        if trim_bytes(piece).len() > 0 {
            assert(listed(seen).drop_last() =~= before);
            match parse_element(piece) {
                None => {
                    proof {
                        lemma_listed_grows(all, i + 1);
                        lemma_unparsable(listed(all), listed(seen).len() as int, len);
                    }
                    return ResolvedRanges::Absent;
                },
                Some(asked) => {
                    if let Some(range) = resolve_element(asked, len) {
                        ranges.push(range);
                    }
                },
            }
            is_list = true;
        }
        i = i + 1;
    }
    assert(all.take(i as int) =~= all);
    if !is_list {
        return ResolvedRanges::Absent;
    }
    match ranges.len() {
        0 => ResolvedRanges::NotSatisfiable,
        1 => ResolvedRanges::Single(ranges.remove(0)),
        _ => ResolvedRanges::Multiple(ranges),
    }
}

/// Parses one element of a byte-range-set.
fn parse_element(element: &[u8]) -> (r: Option<RangeSpec>)
    ensures
        r == range_spec(element@),
{
    let r = trim_bytes(element);
    let len = r.len();
    match find_byte(r, 45) {
        None => None,
        Some(hyphen) => {
            let tail = slice_subrange(r, hyphen + 1, len);
            assert(tail@ =~= r@.skip(hyphen + 1));
            if hyphen == 0 {
                match parse_u64(tail) {
                    Some(n) => Some(RangeSpec::Suffix(n)),
                    None => None,
                }
            } else {
                let head = slice_subrange(r, 0, hyphen);
                assert(head@ =~= r@.take(hyphen as int));
                match parse_u64(head) {
                    None => None,
                    Some(first) => if hyphen + 1 >= len {
                        Some(RangeSpec::From(first, None))
                    } else {
                        match parse_u64(tail) {
                            Some(last) => Some(RangeSpec::From(first, Some(last))),
                            None => None,
                        }
                    },
                }
            }
        },
    }
}

/// Resolves one element of a byte-range-set.
fn resolve_element(asked: RangeSpec, len: u64) -> (r: Option<Range<u64>>)
    ensures
        r == resolve(asked, len),
{
    match asked {
        RangeSpec::Suffix(n) => if n == 0 || len == 0 {
            None
        } else if n >= len {
            Some(0..len)
        } else {
            Some(len - n..len)
        },
        RangeSpec::From(first, last) => {
            let end = match last {
                Some(last) => if last < len {
                    last + 1
                } else {
                    len
                },
                None => len,
            };
            if first >= end {
                None
            } else {
                Some(first..end)
            }
        },
    }
}

/// The elements listed up to a place are the first of all that are listed.
proof fn lemma_listed_grows(elements: Seq<Seq<u8>>, n: int)
    requires
        0 <= n <= elements.len(),
    ensures
        listed(elements.take(n)).len() <= listed(elements).len(),
        listed(elements).take(listed(elements.take(n)).len() as int) == listed(elements.take(n)),
    decreases elements.len() - n,
{
    let first = listed(elements.take(n));
    if n < elements.len() {
        let shorter = elements.drop_last();
        assert(shorter.take(n) =~= elements.take(n));
        lemma_listed_grows(shorter, n);
        assert(listed(elements).take(first.len() as int) =~= listed(shorter).take(
            first.len() as int,
        ));
    } else {
        assert(elements.take(n) =~= elements);
        assert(first.take(first.len() as int) =~= first);
    }
}

/// An element that is not blank is listed.
proof fn lemma_listed(elements: Seq<Seq<u8>>, i: int)
    requires
        0 <= i < elements.len(),
        trim(elements[i]).len() > 0,
    ensures
        listed(elements).contains(elements[i]),
    decreases elements.len(),
{
    let shorter = elements.drop_last();
    if i < shorter.len() {
        lemma_listed(shorter, i);
        let j = choose|j: int| 0 <= j < listed(shorter).len() && listed(shorter)[j] == elements[i];
        assert(listed(elements)[j] == elements[i]);
    } else {
        assert(listed(elements)[listed(elements).len() - 1] == elements[i]);
    }
}

/// A set with an element that cannot be parsed asks for no ranges.
proof fn lemma_unparsable(elements: Seq<Seq<u8>>, n: int, len: u64)
    requires
        0 < n <= elements.len(),
        resolve_all(elements.take(n), len) is None,
    ensures
        resolve_all(elements, len) is None,
    decreases elements.len() - n,
{
    if n < elements.len() {
        assert(elements.drop_last().take(n) =~= elements.take(n));
        lemma_unparsable(elements.drop_last(), n, len);
    } else {
        assert(elements.take(n) =~= elements);
    }
}

/// Every resolved range holds a byte and lies within the entity, and there are no more of them than
/// elements.
pub proof fn lemma_ranges_within(elements: Seq<Seq<u8>>, len: u64)
    ensures
        resolve_all(elements, len) matches Some(ranges) ==> {
            &&& ranges.len() <= elements.len()
            &&& forall|i: int|
                0 <= i < ranges.len() ==> (#[trigger] ranges[i]).start < ranges[i].end
                    && ranges[i].end <= len
        },
    decreases elements.len(),
{
    if elements.len() > 0 {
        lemma_ranges_within(elements.drop_last(), len);
    }
}

/// What a header resolves to: each range holds a byte and lies within the entity, and several are
/// two at least.
pub proof fn lemma_resolved(r: ResolvedRanges, text: Seq<u8>, len: u64)
    requires
        r.resolves(requested_ranges(text, len)),
    ensures
        r matches ResolvedRanges::Single(range) ==> range.start < range.end && range.end <= len,
        r matches ResolvedRanges::Multiple(ranges) ==> ranges@.len() >= 2 && forall|i: int|
            0 <= i < ranges@.len() ==> (#[trigger] ranges@[i]).start < ranges@[i].end
                && ranges@[i].end <= len,
{
    if let Some(set) = byte_range_set(text) {
        lemma_ranges_within(listed(split(set, 44)), len);
    }
}

/// No range of an empty entity can be satisfied.
pub proof fn lemma_empty_entity(elements: Seq<Seq<u8>>)
    ensures
        resolve_all(elements, 0) matches Some(ranges) ==> ranges.len() == 0,
    decreases elements.len(),
{
    if elements.len() > 0 {
        lemma_empty_entity(elements.drop_last());
    }
}

/// A header with one element that is not blank and cannot be parsed is ignored as a whole.
pub proof fn lemma_unparsable_header(set: Seq<u8>, i: int, len: u64)
    requires
        0 <= i < split(set, 44).len(),
        trim(split(set, 44)[i]).len() > 0,
        range_spec(split(set, 44)[i]) is None,
    ensures
        requested_ranges("bytes=".spec_bytes() + set, len) is None,
{
    let all = split(set, 44);
    let elements = listed(all);
    lemma_listed(all, i);
    let j = choose|j: int| 0 <= j < elements.len() && elements[j] == all[i];
    assert(elements.take(j + 1).last() == elements[j]);
    lemma_unparsable(elements, j + 1, len);
    lemma_set(set);
}

/// What follows the unit is the byte-range-set.
proof fn lemma_set(set: Seq<u8>)
    ensures
        byte_range_set("bytes=".spec_bytes() + set) == Some(set),
{
    broadcast use vstd::string::is_ascii_spec_bytes;

    reveal_strlit("bytes=");
    assert("bytes=".is_ascii());
    let unit = "bytes=".spec_bytes();
    assert(lowered(unit) =~= unit);
    lemma_any_unit(unit, set);
}

/// What follows the unit is the byte-range-set, whatever the letter case of the unit.
proof fn lemma_any_unit(unit: Seq<u8>, set: Seq<u8>)
    requires
        lowered(unit) == "bytes=".spec_bytes(),
    ensures
        byte_range_set(unit + set) == Some(set),
{
    assert((unit + set).skip(unit.len() as int) =~= set);
    assert(lowered(unit + set) =~= lowered(unit) + lowered(set));
    assert(lowered(unit).len() == unit.len());
}

/// The letter case of the unit does not matter.
pub proof fn lemma_unit_case(unit: Seq<u8>, set: Seq<u8>, len: u64)
    requires
        lowered(unit) == "bytes=".spec_bytes(),
    ensures
        requested_ranges(unit + set, len) == requested_ranges("bytes=".spec_bytes() + set, len),
{
    lemma_any_unit(unit, set);
    lemma_set(set);
}

/// A number in base ten is read as that number.
proof fn lemma_reads_decimal(n: u64)
    ensures
        decimal_u64(decimal_digits(n as nat)) == Some(n),
        decimal_digits(n as nat).len() > 0,
        all_digits(decimal_digits(n as nat)),
{
    lemma_decimal_round_trip(n as nat);
    let d = decimal_digits(n as nat);
    assert(is_digit(d[0]));
}

/// A set without a comma is its own only element.
proof fn lemma_one_element(set: Seq<u8>)
    requires
        forall|i: int| 0 <= i < set.len() ==> set[i] != 44,
    ensures
        split(set, 44) == seq![set],
{
    lemma_first_index_unique(set, 44, set.len() as int);
}

/// The ranges that one element asks for.
spec fn own_ranges(asked: Option<RangeSpec>, len: u64) -> Option<Seq<Range<u64>>> {
    match asked {
        Some(asked) => Some(
            match resolve(asked, len) {
                Some(range) => seq![range],
                None => Seq::<Range<u64>>::empty(),
            },
        ),
        None => None,
    }
}

/// A list of one element resolves as that element does.
proof fn lemma_one_resolved(element: Seq<u8>, len: u64)
    ensures
        resolve_all(seq![element], len) == own_ranges(range_spec(element), len),
{
    let elements = seq![element];
    let none = Seq::<Range<u64>>::empty();
    assert(elements.drop_last() =~= Seq::<Seq<u8>>::empty());
    assert(elements.last() == element);
    assert(resolve_all(elements.drop_last(), len) == Some(none));
    if let Some(asked) = range_spec(element) {
        if let Some(range) = resolve(asked, len) {
            assert(none.push(range) =~= seq![range]);
        }
    }
}

/// A list of one element lists it unless it is blank.
proof fn lemma_one_listed(element: Seq<u8>)
    ensures
        listed(seq![element]) == if trim(element).len() == 0 {
            Seq::<Seq<u8>>::empty()
        } else {
            seq![element]
        },
{
    let elements = seq![element];
    assert(elements.drop_last() =~= Seq::<Seq<u8>>::empty());
    assert(elements.last() == element);
    assert(listed(elements.drop_last()) =~= Seq::<Seq<u8>>::empty());
    assert(Seq::<Seq<u8>>::empty().push(element) =~= elements);
}

/// A header that asks for one range resolves as its element does.
proof fn lemma_one_range(set: Seq<u8>, len: u64)
    requires
        forall|i: int| 0 <= i < set.len() ==> set[i] != 44,
    ensures
        requested_ranges("bytes=".spec_bytes() + set, len) == if trim(set).len() == 0 {
            None
        } else {
            own_ranges(range_spec(set), len)
        },
{
    lemma_set(set);
    lemma_one_element(set);
    lemma_one_listed(set);
    lemma_one_resolved(set, len);
}

/// `bytes=a-b` asks for the bytes from `a` up to and with `b`, as far as the entity goes.
pub proof fn lemma_closed_range(first: u64, last: u64, len: u64)
    ensures
        requested_ranges(
            "bytes=".spec_bytes() + (decimal_digits(first as nat) + seq![45u8] + decimal_digits(
                last as nat,
            )),
            len,
        ) == Some(
            if first <= last && first < len {
                seq![
                    Range {
                        start: first,
                        end: if last < len {
                            (last + 1) as u64
                        } else {
                            len
                        },
                    },
                ]
            } else {
                Seq::<Range<u64>>::empty()
            },
        ),
{
    lemma_reads_decimal(first);
    lemma_reads_decimal(last);
    let a = decimal_digits(first as nat);
    let b = decimal_digits(last as nat);
    let set = a + seq![45u8] + b;
    assert forall|i: int| 0 <= i < set.len() implies set[i] != 44 by {
        if i < a.len() {
            assert(is_digit(a[i]));
        } else if i > a.len() {
            assert(is_digit(b[i - a.len() - 1]));
        }
    }
    assert(is_digit(a[0]));
    assert(set[0] == a[0]);
    assert(is_digit(b[b.len() - 1]));
    assert(set.last() == b[b.len() - 1]);
    assert(trim(set) == set);
    assert forall|i: int| 0 <= i < a.len() implies set[i] != 45 by {
        assert(is_digit(a[i]));
    }
    lemma_first_index_unique(set, 45, a.len() as int);
    assert(set.take(a.len() as int) =~= a);
    assert(set.skip(a.len() as int + 1) =~= b);
    lemma_one_range(set, len);
}

/// `bytes=a-` asks for all bytes from `a` on.
pub proof fn lemma_open_range(first: u64, len: u64)
    ensures
        requested_ranges(
            "bytes=".spec_bytes() + decimal_digits(first as nat).push(45u8),
            len,
        ) == Some(
            if first < len {
                seq![Range { start: first, end: len }]
            } else {
                Seq::<Range<u64>>::empty()
            },
        ),
{
    lemma_reads_decimal(first);
    let a = decimal_digits(first as nat);
    let set = a.push(45u8);
    assert forall|i: int| 0 <= i < set.len() implies set[i] != 44 by {
        if i < a.len() {
            assert(is_digit(a[i]));
        }
    }
    assert(is_digit(a[0]));
    assert(set[0] == a[0]);
    assert(trim(set) == set);
    assert forall|i: int| 0 <= i < a.len() implies set[i] != 45 by {
        assert(is_digit(a[i]));
    }
    lemma_first_index_unique(set, 45, a.len() as int);
    assert(set.take(a.len() as int) =~= a);
    lemma_one_range(set, len);
}

/// `bytes=-n` asks for the last `n` bytes, or for all of an entity that has no more than that;
/// where that is no byte at all, it cannot be satisfied.
pub proof fn lemma_suffix_range(n: u64, len: u64)
    ensures
        requested_ranges(
            "bytes=".spec_bytes() + (seq![45u8] + decimal_digits(n as nat)),
            len,
        ) == Some(
            if n == 0 || len == 0 {
                Seq::<Range<u64>>::empty()
            } else {
                seq![
                    Range {
                        start: if n < len {
                            (len - n) as u64
                        } else {
                            0
                        },
                        end: len,
                    },
                ]
            },
        ),
{
    lemma_reads_decimal(n);
    let b = decimal_digits(n as nat);
    let set = seq![45u8] + b;
    assert forall|i: int| 0 <= i < set.len() implies set[i] != 44 by {
        if i > 0 {
            assert(is_digit(b[i - 1]));
        }
    }
    assert(set[0] == 45);
    assert(is_digit(b[b.len() - 1]));
    assert(set.last() == b[b.len() - 1]);
    assert(trim(set) == set);
    lemma_first_index_unique(set, 45, 0);
    assert(set.skip(1) =~= b);
    lemma_one_range(set, len);
}

/// The elements of two lists that are not blank.
proof fn lemma_listed_join(a: Seq<Seq<u8>>, b: Seq<Seq<u8>>)
    ensures
        listed(a + b) == listed(a) + listed(b),
    decreases b.len(),
{
    if b.len() == 0 {
        assert(a + b =~= a);
        assert(listed(a) + listed(b) =~= listed(a));
    } else {
        assert((a + b).drop_last() =~= a + b.drop_last());
        lemma_listed_join(a, b.drop_last());
        assert(listed(a + b) =~= listed(a) + listed(b));
    }
}

/// The ranges of two lists.
proof fn lemma_resolved_join(a: Seq<Seq<u8>>, b: Seq<Seq<u8>>, len: u64)
    ensures
        resolve_all(a + b, len) == match (resolve_all(a, len), resolve_all(b, len)) {
            (Some(first), Some(second)) => Some(first + second),
            _ => None,
        },
    decreases b.len(),
{
    if b.len() == 0 {
        assert(a + b =~= a);
        if let Some(first) = resolve_all(a, len) {
            assert(first + Seq::<Range<u64>>::empty() =~= first);
        }
    } else {
        assert((a + b).drop_last() =~= a + b.drop_last());
        lemma_resolved_join(a, b.drop_last(), len);
        if let (Some(first), Some(second)) = (
            resolve_all(a, len),
            resolve_all(b.drop_last(), len),
        ) {
            if let Some(asked) = range_spec(b.last()) {
                if let Some(range) = resolve(asked, len) {
                    assert((first + second).push(range) =~= first + second.push(range));
                }
            }
        }
    }
}

/// There is nothing but spaces, tabs and commas.
pub open spec fn is_vacant(set: Seq<u8>) -> bool {
    forall|i: int| 0 <= i < set.len() ==> (#[trigger] set[i] == 32 || set[i] == 9 || set[i] == 44)
}

/// A set lists something unless it is vacant.
proof fn lemma_vacant(set: Seq<u8>)
    ensures
        is_vacant(set) <==> listed(split(set, 44)).len() == 0,
    decreases set.len(),
{
    let n = first_index(set, 44);
    lemma_first_index(set, 44);
    let head = if n < set.len() {
        set.take(n)
    } else {
        set
    };
    lemma_trim_parts(head);
    lemma_one_listed(head);
    assert(listed(seq![head]).len() == 0 <==> all_blank(head));
    if is_vacant(set) {
        assert forall|i: int| 0 <= i < head.len() implies (#[trigger] head[i] == 32 || head[i]
            == 9) by {
            assert(head[i] == set[i]);
        }
    }
    if n < set.len() {
        let rest = set.skip(n + 1);
        lemma_vacant(rest);
        lemma_listed_join(seq![head], split(rest, 44));
        if is_vacant(set) {
            assert forall|i: int| 0 <= i < rest.len() implies (#[trigger] rest[i] == 32 || rest[i]
                == 9 || rest[i] == 44) by {
                assert(rest[i] == set[i + n + 1]);
            }
        }
        if all_blank(head) && is_vacant(rest) {
            assert forall|i: int| 0 <= i < set.len() implies (#[trigger] set[i] == 32 || set[i] == 9
                || set[i] == 44) by {
                if i < n {
                    assert(set[i] == head[i]);
                } else if i > n {
                    assert(set[i] == rest[i - n - 1]);
                }
            }
        }
    } else if all_blank(head) {
        assert(is_vacant(set));
    }
}

/// A byte-range-set behind another, with a comma between them, asks for the ranges of the first and
/// then for those of the second, however many there are; what is vacant adds nothing to the other;
/// and where one of the two is not vacant and cannot be parsed, the header is ignored.
pub proof fn lemma_sets_in_a_row(a: Seq<u8>, b: Seq<u8>, len: u64)
    ensures
        ({
            let unit = "bytes=".spec_bytes();
            let first = requested_ranges(unit + a, len);
            let second = requested_ranges(unit + b, len);
            let both = requested_ranges(unit + (a.push(44u8) + b), len);
            &&& is_vacant(a) ==> first is None && both == second
            &&& is_vacant(b) ==> second is None && both == first
            &&& !is_vacant(a) && first is None ==> both is None
            &&& !is_vacant(b) && second is None ==> both is None
            &&& first is Some && second is Some ==> both == Some(first.unwrap() + second.unwrap())
        }),
{
    lemma_set(a);
    lemma_set(b);
    lemma_set(a.push(44u8) + b);
    lemma_split_join(a, b, 44);
    lemma_listed_join(split(a, 44), split(b, 44));
    lemma_resolved_join(listed(split(a, 44)), listed(split(b, 44)), len);
    lemma_vacant(a);
    lemma_vacant(b);
    let none = Seq::<Seq<u8>>::empty();
    if is_vacant(a) {
        assert(listed(split(a, 44)) =~= none);
        assert(none + listed(split(b, 44)) =~= listed(split(b, 44)));
    }
    if is_vacant(b) {
        assert(listed(split(b, 44)) =~= none);
        assert(listed(split(a, 44)) + none =~= listed(split(a, 44)));
    }
}

/// A header with `set` and one more element has the ranges of `set`, and behind them the range of
/// that element, where it can be satisfied: this many, in this order.
pub proof fn lemma_one_more_element(set: Seq<u8>, element: Seq<u8>, len: u64)
    requires
        forall|i: int| 0 <= i < element.len() ==> element[i] != 44,
        requested_ranges("bytes=".spec_bytes() + set, len) is Some,
        requested_ranges("bytes=".spec_bytes() + element, len) is Some,
    ensures
        ({
            let unit = "bytes=".spec_bytes();
            let before = requested_ranges(unit + set, len).unwrap();
            let own = requested_ranges(unit + element, len).unwrap();
            let after = requested_ranges(unit + (set.push(44u8) + element), len);
            &&& own.len() <= 1
            &&& after is Some
            &&& after.unwrap().len() == before.len() + own.len()
            &&& after.unwrap().take(before.len() as int) == before
            &&& own.len() == 1 ==> after.unwrap().last() == own[0]
        }),
{
    lemma_sets_in_a_row(set, element, len);
    lemma_one_range(element, len);
    let before = requested_ranges("bytes=".spec_bytes() + set, len).unwrap();
    let own = requested_ranges("bytes=".spec_bytes() + element, len).unwrap();
    assert((before + own).take(before.len() as int) =~= before);
}

/// Spaces and tabs round an element do not matter.
pub proof fn lemma_blanks_around(front: Seq<u8>, element: Seq<u8>, back: Seq<u8>, len: u64)
    requires
        all_blank(front),
        all_blank(back),
        forall|i: int| 0 <= i < element.len() ==> element[i] != 44,
        element.len() > 0 ==> !is_blank(element[0]) && !is_blank(element.last()),
    ensures
        requested_ranges("bytes=".spec_bytes() + (front + element + back), len)
            == requested_ranges("bytes=".spec_bytes() + element, len),
{
    let whole = front + element + back;
    let none = Seq::<u8>::empty();
    lemma_trim_between(front, element, back);
    lemma_trim_between(none, element, none);
    assert(none + element + none =~= element);
    assert forall|i: int| 0 <= i < whole.len() implies whole[i] != 44 by {
        if i < front.len() {
            assert(whole[i] == front[i]);
        } else if i < front.len() + element.len() {
            assert(whole[i] == element[i - front.len()]);
        } else {
            assert(whole[i] == back[i - front.len() - element.len()]);
        }
    }
    lemma_one_range(whole, len);
    lemma_one_range(element, len);
    assert(range_spec(whole) == range_spec(element));
}

/// An element that asks for something is digits, a hyphen and digits, between spaces and tabs; not
/// both have no digit.
pub proof fn lemma_form_of_element(element: Seq<u8>, len: u64) -> (parts: (
    Seq<u8>,
    Seq<u8>,
    Seq<u8>,
    Seq<u8>,
))
    requires
        forall|i: int| 0 <= i < element.len() ==> element[i] != 44,
        requested_ranges("bytes=".spec_bytes() + element, len) is Some,
    ensures
        element == parts.0 + (parts.1 + seq![45u8] + parts.2) + parts.3,
        all_blank(parts.0),
        all_blank(parts.3),
        forall|i: int| 0 <= i < parts.1.len() ==> 48 <= #[trigger] parts.1[i] <= 57,
        forall|i: int| 0 <= i < parts.2.len() ==> 48 <= #[trigger] parts.2[i] <= 57,
        parts.1.len() + parts.2.len() > 0,
{
    lemma_one_range(element, len);
    assert(range_spec(element) is Some);
    let ends = lemma_trim_parts(element);
    let r = trim(element);
    let n = first_index(r, 45);
    lemma_first_index(r, 45);
    let parts = (element.take(ends.0), r.take(n), r.skip(n + 1), element.skip(ends.1));
    assert(r =~= parts.1 + seq![45u8] + parts.2);
    assert(element =~= parts.0 + r + parts.3);
    if n == 0 {
        assert(parts.2 =~= r.skip(1));
        assert forall|i: int| 0 <= i < parts.2.len() implies 48 <= #[trigger] parts.2[i] <= 57 by {
            assert(is_digit(parts.2[i]));
        }
    } else {
        assert forall|i: int| 0 <= i < parts.1.len() implies 48 <= #[trigger] parts.1[i] <= 57 by {
            assert(is_digit(parts.1[i]));
        }
        assert forall|i: int| 0 <= i < parts.2.len() implies 48 <= #[trigger] parts.2[i] <= 57 by {
            assert(is_digit(parts.2[i]));
        }
    }
    parts
}

/// A number that 64 bits cannot hold makes a header ignored, wherever it stands.
pub proof fn lemma_large_number(n: nat, other: u64, len: u64)
    requires
        n > u64::MAX,
    ensures
        ({
            let unit = "bytes=".spec_bytes();
            let large = decimal_digits(n);
            let small = decimal_digits(other as nat);
            &&& requested_ranges(unit + large.push(45u8), len) is None
            &&& requested_ranges(unit + (seq![45u8] + large), len) is None
            &&& requested_ranges(unit + (large + seq![45u8] + small), len) is None
            &&& requested_ranges(unit + (small + seq![45u8] + large), len) is None
        }),
{
    let large = decimal_digits(n);
    let small = decimal_digits(other as nat);
    let none = Seq::<u8>::empty();
    lemma_decimal_round_trip(n);
    lemma_reads_decimal(other);
    assert(large + seq![45u8] + none =~= large.push(45u8));
    assert(none + seq![45u8] + large =~= seq![45u8] + large);
    lemma_numbers_apart(large, none, len);
    lemma_numbers_apart(none, large, len);
    lemma_numbers_apart(large, small, len);
    lemma_numbers_apart(small, large, len);
}

/// An element of two numbers is read as these numbers; either may be missing.
proof fn lemma_numbers_apart(a: Seq<u8>, b: Seq<u8>, len: u64)
    requires
        all_digits(a),
        all_digits(b),
    ensures
        requested_ranges("bytes=".spec_bytes() + (a + seq![45u8] + b), len) == own_ranges(
            range_spec(a + seq![45u8] + b),
            len,
        ),
        range_spec(a + seq![45u8] + b) == if a.len() == 0 {
            match decimal_u64(b) {
                Some(n) => Some(RangeSpec::Suffix(n)),
                None => None,
            }
        } else if b.len() == 0 {
            match decimal_u64(a) {
                Some(first) => Some(RangeSpec::From(first, None)),
                None => None,
            }
        } else {
            match (decimal_u64(a), decimal_u64(b)) {
                (Some(first), Some(last)) => Some(RangeSpec::From(first, Some(last))),
                _ => None,
            }
        },
{
    let set = a + seq![45u8] + b;
    assert forall|i: int| 0 <= i < set.len() implies set[i] != 44 && !is_blank(set[i]) by {
        if i < a.len() {
            assert(is_digit(a[i]));
        } else if i > a.len() {
            assert(is_digit(b[i - a.len() - 1]));
        }
    }
    let none = Seq::<u8>::empty();
    lemma_trim_between(none, set, none);
    assert(none + set + none =~= set);
    assert forall|i: int| 0 <= i < a.len() implies set[i] != 45 by {
        assert(is_digit(a[i]));
    }
    lemma_first_index_unique(set, 45, a.len() as int);
    assert(set.take(a.len() as int) =~= a);
    assert(set.skip(a.len() as int + 1) =~= b);
    assert(set.skip(1) =~= b || a.len() > 0);
    lemma_one_range(set, len);
}

/// Zeros in front of the numbers of an element do not matter.
pub proof fn lemma_zeros_in_front_of_numbers(
    x: Seq<u8>,
    a: Seq<u8>,
    y: Seq<u8>,
    b: Seq<u8>,
    len: u64,
)
    requires
        forall|i: int| 0 <= i < a.len() ==> 48 <= #[trigger] a[i] && a[i] <= 57,
        forall|i: int| 0 <= i < b.len() ==> 48 <= #[trigger] b[i] && b[i] <= 57,
        forall|i: int| 0 <= i < x.len() ==> x[i] == 48,
        forall|i: int| 0 <= i < y.len() ==> y[i] == 48,
        a.len() == 0 ==> x.len() == 0,
        b.len() == 0 ==> y.len() == 0,
    ensures
        requested_ranges("bytes=".spec_bytes() + (x + a + seq![45u8] + (y + b)), len)
            == requested_ranges("bytes=".spec_bytes() + (a + seq![45u8] + b), len),
{
    assert forall|i: int| 0 <= i < (x + a).len() implies is_digit(#[trigger] (x + a)[i]) by {
        if i >= x.len() {
            assert((x + a)[i] == a[i - x.len()]);
        }
    }
    assert forall|i: int| 0 <= i < (y + b).len() implies is_digit(#[trigger] (y + b)[i]) by {
        if i >= y.len() {
            assert((y + b)[i] == b[i - y.len()]);
        }
    }
    lemma_zeros_in_front(x, a);
    lemma_zeros_in_front(y, b);
    lemma_numbers_apart(x + a, y + b, len);
    lemma_numbers_apart(a, b, len);
    let long = x + a + seq![45u8] + (y + b);
    let short = a + seq![45u8] + b;
    assert(range_spec(long) == range_spec(short));
}

/// Only a header that starts with `bytes=`, in whatever letter case, asks for ranges.
pub proof fn lemma_other_units(text: Seq<u8>, len: u64)
    requires
        requested_ranges(text, len) is Some,
    ensures
        text.len() >= 6,
        text[0] == 98 || text[0] == 66,
        text[1] == 121 || text[1] == 89,
        text[2] == 116 || text[2] == 84,
        text[3] == 101 || text[3] == 69,
        text[4] == 115 || text[4] == 83,
        text[5] == 61,
{
    broadcast use vstd::string::is_ascii_spec_bytes;

    reveal_strlit("bytes=");
    assert("bytes=".is_ascii());
    let unit = "bytes=".spec_bytes();
    let low = lowered(text);
    assert(unit.len() == 6);
    assert(low[0] == unit[0] && low[1] == unit[1] && low[2] == unit[2] && low[3] == unit[3]
        && low[4] == unit[4] && low[5] == unit[5]);
    assert(unit[0] == 98 && unit[1] == 121 && unit[2] == 116 && unit[3] == 101 && unit[4] == 115
        && unit[5] == 61);
}

/// What `parse_text` hands back: all ranges that were asked for, as one or as several.
pub proof fn lemma_parse_text(text: &str, len: u64, r: ResolvedRanges)
    requires
        call_ensures(parse_text, (text, len), r),
    ensures
        match requested_ranges(text.spec_bytes(), len) {
            None => r is Absent,
            Some(ranges) => {
                &&& r is NotSatisfiable <==> ranges.len() == 0
                &&& r matches ResolvedRanges::Single(range) ==> ranges == seq![range]
                &&& r matches ResolvedRanges::Multiple(all) ==> all@ == ranges && ranges.len() > 1
                &&& !(r is Absent)
            },
        },
{
    if let ResolvedRanges::Single(range) = r {
        assert(requested_ranges(text.spec_bytes(), len).unwrap() =~= seq![range]);
    }
}

/// Without a header there are no ranges; nor are there for a header that is no text, with a byte
/// that is neither visible ASCII nor a space or a tab.
pub proof fn lemma_no_text(range: Option<&HeaderValue>, i: int, len: u64, r: ResolvedRanges)
    requires
        call_ensures(parse, (range, len), r),
        range matches Some(value) ==> {
            &&& 0 <= i < value_bytes(*value).len()
            &&& value_bytes(*value)[i] != 9
            &&& value_bytes(*value)[i] < 32 || value_bytes(*value)[i] > 126
        },
    ensures
        r is Absent,
{
}

/// A header that is text is read like that text.
pub proof fn lemma_parse(
    value: &HeaderValue,
    text: &str,
    len: u64,
    a: ResolvedRanges,
    b: ResolvedRanges,
)
    requires
        call_ensures(parse, (Some(value), len), a),
        call_ensures(parse_text, (text, len), b),
        text.spec_bytes() == value_bytes(*value),
        forall|i: int|
            0 <= i < text.spec_bytes().len() ==> (32 <= #[trigger] text.spec_bytes()[i]
                && text.spec_bytes()[i] <= 126) || text.spec_bytes()[i] == 9,
    ensures
        a is Absent == b is Absent,
        a is NotSatisfiable == b is NotSatisfiable,
        a matches ResolvedRanges::Single(range) ==> b == ResolvedRanges::Single(range),
        a matches ResolvedRanges::Multiple(all) ==> (b matches ResolvedRanges::Multiple(others)
            && all@ == others@),
{
}

} // verus!
