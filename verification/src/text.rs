//! Byte strings: searching, splitting, trimming, comparing, and reading decimal numbers.

use vstd::prelude::*;
use vstd::slice::slice_subrange;
use vstd::string::StringSliceAdditionalSpecFns;
use vstd::utf8::*;

verus! {

/// The position of the first `b` in `s`, or the length of `s` where there is none.
pub open spec fn first_index(s: Seq<u8>, b: u8) -> int
    decreases s.len(),
{
    if s.len() == 0 || s[0] == b {
        0
    } else {
        1 + first_index(s.drop_first(), b)
    }
}

/// What `first_index` is: a position before which no `b` stands, and at which one stands unless
/// it is the end.
pub proof fn lemma_first_index(s: Seq<u8>, b: u8)
    ensures
        0 <= first_index(s, b) <= s.len(),
        forall|i: int| 0 <= i < first_index(s, b) ==> s[i] != b,
        first_index(s, b) < s.len() ==> s[first_index(s, b)] == b,
    decreases s.len(),
{
    if s.len() != 0 && s[0] != b {
        lemma_first_index(s.drop_first(), b);
        assert forall|i: int| 0 <= i < first_index(s, b) implies s[i] != b by {
            if i > 0 {
                assert(s[i] == s.drop_first()[i - 1]);
            }
        }
    }
}

/// Only one position is as `first_index` is.
pub proof fn lemma_first_index_unique(s: Seq<u8>, b: u8, n: int)
    requires
        0 <= n <= s.len(),
        forall|i: int| 0 <= i < n ==> s[i] != b,
        n < s.len() ==> s[n] == b,
    ensures
        first_index(s, b) == n,
{
    lemma_first_index(s, b);
    let m = first_index(s, b);
    if m < n {
        assert(s[m] != b);
    } else if n < m {
        assert(s[n] != b);
    }
}

/// The pieces of `s` between the bytes `sep`; at least one, and none of them holds a `sep`.
pub open spec fn split(s: Seq<u8>, sep: u8) -> Seq<Seq<u8>>
    decreases s.len(),
    via split_decreases
{
    let n = first_index(s, sep);
    if n >= s.len() {
        seq![s]
    } else {
        seq![s.take(n)] + split(s.skip(n + 1), sep)
    }
}

#[via_fn]
proof fn split_decreases(s: Seq<u8>, sep: u8) {
    lemma_first_index(s, sep);
}

/// A space or a tab.
pub open spec fn is_blank(b: u8) -> bool {
    b == 32 || b == 9
}

/// `s` without the spaces and tabs in front.
pub open spec fn trim_start(s: Seq<u8>) -> Seq<u8>
    decreases s.len(),
{
    if s.len() > 0 && is_blank(s[0]) {
        trim_start(s.drop_first())
    } else {
        s
    }
}

/// `s` without the spaces and tabs at its end.
pub open spec fn trim_end(s: Seq<u8>) -> Seq<u8>
    decreases s.len(),
{
    if s.len() > 0 && is_blank(s.last()) {
        trim_end(s.drop_last())
    } else {
        s
    }
}

/// `s` without the spaces and tabs at either end.
pub open spec fn trim(s: Seq<u8>) -> Seq<u8> {
    trim_end(trim_start(s))
}

/// All of `s` are spaces and tabs.
pub open spec fn all_blank(s: Seq<u8>) -> bool {
    forall|i: int| 0 <= i < s.len() ==> (#[trigger] s[i] == 32 || s[i] == 9)
}

/// What `trim` leaves: a part of `s` round which there is nothing but spaces and tabs, and that
/// neither starts nor ends with one. Gives the two ends of that part.
pub proof fn lemma_trim_parts(s: Seq<u8>) -> (ends: (int, int))
    ensures
        0 <= ends.0 <= ends.1 <= s.len(),
        trim(s) == s.subrange(ends.0, ends.1),
        all_blank(s.take(ends.0)),
        all_blank(s.skip(ends.1)),
        trim(s).len() > 0 ==> !is_blank(trim(s)[0]) && !is_blank(trim(s).last()),
        trim(s).len() == 0 <==> all_blank(s),
{
    let m = lemma_trim_start_parts(s);
    let rest = trim_start(s);
    let n = lemma_trim_end_parts(rest);
    let ends = (m, m + n);
    assert(trim(s) =~= s.subrange(m, m + n));
    assert forall|i: int| 0 <= i < s.skip(m + n).len() implies (#[trigger] s.skip(m + n)[i] == 32
        || s.skip(m + n)[i] == 9) by {
        assert(s.skip(m + n)[i] == rest.skip(n)[i]);
    }
    if trim(s).len() == 0 {
        assert forall|i: int| 0 <= i < s.len() implies (#[trigger] s[i] == 32 || s[i] == 9) by {
            if i < m {
                assert(s[i] == s.take(m)[i]);
            } else {
                assert(s[i] == s.skip(m + n)[i - m - n]);
            }
        }
    } else {
        assert(trim(s)[0] == rest[0]);
        assert(trim(s)[0] == s[m]);
    }
    ends
}

proof fn lemma_trim_start_parts(s: Seq<u8>) -> (n: int)
    ensures
        0 <= n <= s.len(),
        trim_start(s) == s.skip(n),
        all_blank(s.take(n)),
        n < s.len() ==> !is_blank(s[n]),
    decreases s.len(),
{
    if s.len() > 0 && is_blank(s[0]) {
        let n = lemma_trim_start_parts(s.drop_first());
        assert(s.drop_first().skip(n) =~= s.skip(n + 1));
        assert forall|i: int| 0 <= i < n + 1 implies (#[trigger] s.take(n + 1)[i] == 32
            || s.take(n + 1)[i] == 9) by {
            if i > 0 {
                assert(s.take(n + 1)[i] == s.drop_first().take(n)[i - 1]);
            }
        }
        n + 1
    } else {
        assert(s.skip(0) =~= s);
        0
    }
}

proof fn lemma_trim_end_parts(s: Seq<u8>) -> (n: int)
    ensures
        0 <= n <= s.len(),
        trim_end(s) == s.take(n),
        all_blank(s.skip(n)),
        n > 0 ==> !is_blank(s[n - 1]),
    decreases s.len(),
{
    if s.len() > 0 && is_blank(s.last()) {
        let n = lemma_trim_end_parts(s.drop_last());
        assert(s.drop_last().take(n) =~= s.take(n));
        assert forall|i: int| 0 <= i < s.skip(n).len() implies (#[trigger] s.skip(n)[i] == 32
            || s.skip(n)[i] == 9) by {
            if i < s.len() - 1 - n {
                assert(s.skip(n)[i] == s.drop_last().skip(n)[i]);
            }
        }
        n
    } else {
        assert(s.take(s.len() as int) =~= s);
        s.len() as int
    }
}

/// A text that neither starts nor ends with a space or a tab is what is left of it between spaces
/// and tabs.
pub proof fn lemma_trim_between(front: Seq<u8>, s: Seq<u8>, back: Seq<u8>)
    requires
        all_blank(front),
        all_blank(back),
        s.len() > 0 ==> !is_blank(s[0]) && !is_blank(s.last()),
    ensures
        trim(front + s + back) == s,
{
    let whole = front + s + back;
    let ends = lemma_trim_parts(whole);
    let n = front.len() as int;
    if s.len() == 0 {
        assert forall|i: int| 0 <= i < whole.len() implies (#[trigger] whole[i] == 32 || whole[i]
            == 9) by {
            if i < n {
                assert(whole[i] == front[i]);
            } else {
                assert(whole[i] == back[i - n]);
            }
        }
        assert(trim(whole) =~= s);
    } else {
        let m = n + s.len();
        assert(whole[n] == s[0]);
        assert(whole[m - 1] == s.last());
        assert(!all_blank(whole));
        if ends.0 < n {
            assert(whole[ends.0] == front[ends.0]);
        }
        if ends.0 > n {
            assert(whole.take(ends.0)[n] == whole[n]);
        }
        if ends.1 > m {
            assert(whole[ends.1 - 1] == back[ends.1 - 1 - m]);
        }
        if ends.1 < m {
            assert(whole.skip(ends.1)[m - 1 - ends.1] == whole[m - 1]);
        }
        assert(trim(whole) =~= s);
    }
}

/// An ASCII digit.
pub open spec fn is_digit(b: u8) -> bool {
    48 <= b && b <= 57
}

/// All of `s` are ASCII digits.
pub open spec fn all_digits(s: Seq<u8>) -> bool {
    forall|i: int| 0 <= i < s.len() ==> is_digit(#[trigger] s[i])
}

/// The number that the digits `s` write in base ten.
pub open spec fn digits_value(s: Seq<u8>) -> nat
    decreases s.len(),
{
    if s.len() == 0 {
        0
    } else {
        digits_value(s.drop_last()) * 10 + (s.last() - 48) as nat
    }
}

/// The unsigned 64-bit number that `s` writes: digits, at least one, and nothing else.
pub open spec fn decimal_u64(s: Seq<u8>) -> Option<u64> {
    if s.len() > 0 && all_digits(s) && digits_value(s) <= u64::MAX {
        Some(digits_value(s) as u64)
    } else {
        None
    }
}

/// `n` in base ten.
pub open spec fn decimal_digits(n: nat) -> Seq<u8>
    decreases n,
{
    if n < 10 {
        seq![(48 + n) as u8]
    } else {
        decimal_digits(n / 10).push((48 + n % 10) as u8)
    }
}

/// A number in base ten reads back as itself.
pub proof fn lemma_decimal_round_trip(n: nat)
    ensures
        decimal_digits(n).len() > 0,
        all_digits(decimal_digits(n)),
        digits_value(decimal_digits(n)) == n,
    decreases n,
{
    if n < 10 {
        let d = decimal_digits(n);
        assert(d.drop_last() =~= Seq::<u8>::empty());
        assert(digits_value(d.drop_last()) == 0);
    } else {
        lemma_decimal_round_trip(n / 10);
        let d = decimal_digits(n);
        assert(d.drop_last() =~= decimal_digits(n / 10));
        assert(d.last() == (48 + n % 10) as u8);
    }
}

/// The digits of a longer number write at least as much.
proof fn lemma_digits_value_monotone(s: Seq<u8>, n: int)
    requires
        0 <= n <= s.len(),
        all_digits(s),
    ensures
        digits_value(s.take(n)) <= digits_value(s),
    decreases s.len() - n,
{
    if n < s.len() {
        let t = s.drop_last();
        assert forall|i: int| 0 <= i < t.len() implies is_digit(#[trigger] t[i]) by {
            assert(t[i] == s[i]);
        }
        assert(s.take(n) =~= t.take(n));
        lemma_digits_value_monotone(t, n);
        assert(is_digit(s[s.len() - 1]));
    } else {
        assert(s.take(n) =~= s);
    }
}

/// Finds the first `b` in `s`.
pub fn find_byte(s: &[u8], b: u8) -> (r: Option<usize>)
    ensures
        match r {
            Some(n) => n < s@.len() && n == first_index(s@, b),
            None => first_index(s@, b) == s@.len(),
        },
{
    let mut n: usize = 0;
    while n < s.len()
        invariant
            n <= s@.len(),
            forall|i: int| 0 <= i < n ==> s@[i] != b,
        decreases s@.len() - n,
    {
        if s[n] == b {
            proof {
                lemma_first_index_unique(s@, b, n as int);
            }
            return Some(n);
        }
        n = n + 1;
    }
    proof {
        lemma_first_index_unique(s@, b, n as int);
    }
    None
}

/// Splits `s` at each `sep`.
pub fn split_bytes<'a>(s: &'a [u8], sep: u8) -> (r: Vec<&'a [u8]>)
    ensures
        r@.map_values(|piece: &[u8]| piece@) == split(s@, sep),
{
    let mut pieces: Vec<&'a [u8]> = Vec::new();
    let mut rest: &'a [u8] = s;
    loop
        invariant
            pieces@.map_values(|piece: &[u8]| piece@) + split(rest@, sep) =~= split(s@, sep),
        decreases rest@.len(),
    {
        let ghost before = pieces@.map_values(|piece: &[u8]| piece@);
        match find_byte(rest, sep) {
            None => {
                pieces.push(rest);
                assert(pieces@.map_values(|piece: &[u8]| piece@) =~= before.push(rest@));
                return pieces;
            },
            Some(n) => {
                let len = rest.len();
                let piece = slice_subrange(rest, 0, n);
                let tail = slice_subrange(rest, n + 1, len);
                pieces.push(piece);
                assert(piece@ =~= rest@.take(n as int));
                assert(tail@ =~= rest@.skip(n + 1));
                assert(pieces@.map_values(|piece: &[u8]| piece@) =~= before.push(piece@));
                rest = tail;
            },
        }
    }
}

/// Drops the spaces and tabs in front of `s`.
pub fn trim_start_bytes<'a>(s: &'a [u8]) -> (r: &'a [u8])
    ensures
        r@ == trim_start(s@),
{
    let mut rest: &'a [u8] = s;
    while rest.len() > 0 && (rest[0] == 32 || rest[0] == 9)
        invariant
            trim_start(rest@) == trim_start(s@),
        decreases rest@.len(),
    {
        let tail = slice_subrange(rest, 1, rest.len());
        assert(tail@ =~= rest@.drop_first());
        rest = tail;
    }
    rest
}

/// Drops the spaces and tabs at either end of `s`.
pub fn trim_bytes<'a>(s: &'a [u8]) -> (r: &'a [u8])
    ensures
        r@ == trim(s@),
{
    let mut rest: &'a [u8] = trim_start_bytes(s);
    while rest.len() > 0 && (rest[rest.len() - 1] == 32 || rest[rest.len() - 1] == 9)
        invariant
            trim_end(rest@) == trim(s@),
        decreases rest@.len(),
    {
        let head = slice_subrange(rest, 0, rest.len() - 1);
        assert(head@ =~= rest@.drop_last());
        rest = head;
    }
    rest
}

/// Compares two byte strings.
pub fn same_bytes(a: &[u8], b: &[u8]) -> (r: bool)
    ensures
        r == (a@ == b@),
{
    if a.len() != b.len() {
        return false;
    }
    let mut i: usize = 0;
    while i < a.len()
        invariant
            a@.len() == b@.len(),
            i <= a@.len(),
            forall|j: int| 0 <= j < i ==> a@[j] == b@[j],
        decreases a@.len() - i,
    {
        if a[i] != b[i] {
            return false;
        }
        i = i + 1;
    }
    assert(a@ =~= b@);
    true
}

/// The ASCII letter in lower case; any other byte as it is.
pub open spec fn lower(b: u8) -> u8 {
    if 65 <= b && b <= 90 {
        (b + 32) as u8
    } else {
        b
    }
}

/// `s` with its ASCII letters in lower case.
pub open spec fn lowered(s: Seq<u8>) -> Seq<u8> {
    s.map_values(|b: u8| lower(b))
}

/// Writes the ASCII letters of `s` in lower case.
pub fn lower_bytes(s: &[u8]) -> (r: Vec<u8>)
    ensures
        r@ == lowered(s@),
{
    let mut out: Vec<u8> = Vec::new();
    let mut i: usize = 0;
    while i < s.len()
        invariant
            i <= s@.len(),
            out@ =~= lowered(s@).take(i as int),
        decreases s@.len() - i,
    {
        let b = s[i];
        out.push(
            if 65 <= b && b <= 90 {
                b + 32
            } else {
                b
            },
        );
        i = i + 1;
    }
    out
}

/// A byte that is no letter is found at the same place in either case.
pub proof fn lemma_first_index_lowered(s: Seq<u8>, b: u8)
    requires
        b < 65,
    ensures
        first_index(lowered(s), b) == first_index(s, b),
{
    lemma_first_index(s, b);
    lemma_first_index_unique(lowered(s), b, first_index(s, b));
}

/// Splitting at a byte that is no letter leaves the case to the pieces.
pub proof fn lemma_split_lowered(s: Seq<u8>, sep: u8)
    requires
        sep < 65,
    ensures
        split(lowered(s), sep) == split(s, sep).map_values(|piece: Seq<u8>| lowered(piece)),
    decreases s.len(),
{
    let n = first_index(s, sep);
    lemma_first_index(s, sep);
    lemma_first_index_lowered(s, sep);
    if n < s.len() {
        lemma_split_lowered(s.skip(n + 1), sep);
        assert(lowered(s).skip(n + 1) =~= lowered(s.skip(n + 1)));
        assert(lowered(s).take(n) =~= lowered(s.take(n)));
    }
    assert(split(lowered(s), sep) =~= split(s, sep).map_values(|piece: Seq<u8>| lowered(piece)));
}

/// Trimming does not mind the case.
pub proof fn lemma_trim_lowered(s: Seq<u8>)
    ensures
        trim(lowered(s)) == lowered(trim(s)),
{
    lemma_trim_start_lowered(s);
    lemma_trim_end_lowered(trim_start(s));
}

proof fn lemma_trim_start_lowered(s: Seq<u8>)
    ensures
        trim_start(lowered(s)) == lowered(trim_start(s)),
    decreases s.len(),
{
    if s.len() > 0 && is_blank(s[0]) {
        lemma_trim_start_lowered(s.drop_first());
        assert(lowered(s).drop_first() =~= lowered(s.drop_first()));
    }
}

proof fn lemma_trim_end_lowered(s: Seq<u8>)
    ensures
        trim_end(lowered(s)) == lowered(trim_end(s)),
    decreases s.len(),
{
    if s.len() > 0 && is_blank(s.last()) {
        lemma_trim_end_lowered(s.drop_last());
        assert(lowered(s).drop_last() =~= lowered(s.drop_last()));
    }
}

/// Two texts are equal where their encodings are.
pub proof fn lemma_encoding_injective(a: Seq<char>, b: Seq<char>)
    requires
        encode_utf8(a) == encode_utf8(b),
    ensures
        a == b,
{
    encode_utf8_decode_utf8(a);
    encode_utf8_decode_utf8(b);
}

/// Compares two texts.
pub fn same_text(a: &str, b: &str) -> (r: bool)
    ensures
        r == (a@ == b@),
{
    let r = same_bytes(a.as_bytes(), b.as_bytes());
    proof {
        if r {
            lemma_encoding_injective(a@, b@);
        }
    }
    r
}

/// The part of `s` behind `prefix`, where `s` starts with it.
pub open spec fn after_prefix<A>(s: Seq<A>, prefix: Seq<A>) -> Option<Seq<A>> {
    if prefix.is_prefix_of(s) {
        Some(s.skip(prefix.len() as int))
    } else {
        None
    }
}

/// Takes `prefix` off the front of `s`.
pub fn strip_bytes<'a>(s: &'a [u8], prefix: &[u8]) -> (r: Option<&'a [u8]>)
    ensures
        match r {
            Some(rest) => after_prefix(s@, prefix@) == Some(rest@),
            None => after_prefix(s@, prefix@) is None,
        },
{
    if s.len() < prefix.len() {
        return None;
    }
    let head = slice_subrange(s, 0, prefix.len());
    if same_bytes(head, prefix) {
        let tail = slice_subrange(s, prefix.len(), s.len());
        assert(tail@ =~= s@.skip(prefix@.len() as int));
        Some(tail)
    } else {
        assert(prefix@.is_prefix_of(s@) ==> head@ =~= prefix@);
        None
    }
}

/// Reads an unsigned 64-bit decimal number.
pub fn parse_u64(s: &[u8]) -> (r: Option<u64>)
    ensures
        r == decimal_u64(s@),
{
    if s.len() == 0 {
        return None;
    }
    let mut value: u64 = 0;
    let mut i: usize = 0;
    assert(s@.take(0) =~= Seq::<u8>::empty());
    while i < s.len()
        invariant
            s@.len() > 0,
            i <= s@.len(),
            all_digits(s@.take(i as int)),
            value == digits_value(s@.take(i as int)),
        decreases s@.len() - i,
    {
        let b = s[i];
        if b < 48 || b > 57 {
            assert(!is_digit(s@[i as int]));
            return None;
        }
        let ghost next = s@.take(i + 1);
        proof {
            assert(next.drop_last() =~= s@.take(i as int));
            assert forall|j: int| 0 <= j < next.len() implies is_digit(#[trigger] next[j]) by {
                if j < i {
                    assert(next[j] == s@.take(i as int)[j]);
                }
            }
            if all_digits(s@) {
                lemma_digits_value_monotone(s@, i + 1);
            }
        }
        let digit: u64 = (b - 48) as u64;
        value = match value.checked_mul(10) {
            Some(v) => match v.checked_add(digit) {
                Some(w) => w,
                None => {
                    return None;
                },
            },
            None => {
                return None;
            },
        };
        i = i + 1;
    }
    assert(s@.take(i as int) =~= s@);
    Some(value)
}

/// `str::strip_prefix` by a text: what is behind `prefix`, where `s` starts with it.
#[verifier::external_body]
pub(crate) fn strip_text<'a>(s: &'a str, prefix: &str) -> (r: Option<&'a str>)
    ensures
        match r {
            Some(rest) => after_prefix(s@, prefix@) == Some(rest@),
            None => after_prefix(s@, prefix@) is None,
        },
{
    s.strip_prefix(prefix)
}

/// Zeros in front of a number do not change it.
pub proof fn lemma_zeros_in_front(zeros: Seq<u8>, s: Seq<u8>)
    requires
        forall|i: int| 0 <= i < zeros.len() ==> zeros[i] == 48,
    ensures
        digits_value(zeros + s) == digits_value(s),
    decreases zeros.len() + s.len(),
{
    let whole = zeros + s;
    if s.len() > 0 {
        assert(whole.drop_last() =~= zeros + s.drop_last());
        lemma_zeros_in_front(zeros, s.drop_last());
    } else if zeros.len() > 0 {
        assert(whole.drop_last() =~= zeros.drop_last() + s);
        lemma_zeros_in_front(zeros.drop_last(), s);
        assert(whole.last() == 48);
    } else {
        assert(whole =~= s);
    }
}

/// `parse_u64` reads a number in base ten, with any number of zeros in front, exactly where 64 bits
/// can hold it.
pub proof fn lemma_parse_number(s: &[u8], zeros: Seq<u8>, n: nat, r: Option<u64>)
    requires
        call_ensures(parse_u64, (s,), r),
        s@ == zeros + decimal_digits(n),
        forall|i: int| 0 <= i < zeros.len() ==> zeros[i] == 48,
    ensures
        r == if n <= u64::MAX {
            Some(n as u64)
        } else {
            None
        },
{
    let d = decimal_digits(n);
    lemma_decimal_round_trip(n);
    lemma_zeros_in_front(zeros, d);
    assert forall|i: int| 0 <= i < s@.len() implies is_digit(#[trigger] s@[i]) by {
        if i >= zeros.len() {
            assert(s@[i] == d[i - zeros.len()]);
        }
    }
}

/// One more digit behind a number makes it ten times as much and the digit.
pub proof fn lemma_one_more_digit(s: &[u8], t: &[u8], digit: u8, a: Option<u64>, b: Option<u64>)
    requires
        call_ensures(parse_u64, (s,), a),
        call_ensures(parse_u64, (t,), b),
        a is Some,
        48 <= digit <= 57,
        t@ == s@.push(digit),
    ensures
        b is Some <==> a.unwrap() * 10 + (digit - 48) <= 0xffff_ffff_ffff_ffff,
        b matches Some(n) ==> n == a.unwrap() * 10 + (digit - 48),
{
    assert(t@.drop_last() =~= s@);
    assert forall|i: int| 0 <= i < t@.len() implies is_digit(#[trigger] t@[i]) by {
        if i < s@.len() {
            assert(is_digit(s@[i]));
        }
    }
}

/// One digit is read as the number that it writes.
pub proof fn lemma_one_digit(s: &[u8], digit: u8, r: Option<u64>)
    requires
        call_ensures(parse_u64, (s,), r),
        48 <= digit <= 57,
        s@ == seq![digit],
    ensures
        r == Some((digit - 48) as u64),
{
    assert(s@.drop_last() =~= Seq::<u8>::empty());
    reveal_with_fuel(digits_value, 2);
}

/// `parse_u64` reads nothing but digits, and needs one.
pub proof fn lemma_parse_digits_only(s: &[u8], r: Option<u64>)
    requires
        call_ensures(parse_u64, (s,), r),
        r is Some,
    ensures
        s@.len() > 0,
        forall|i: int| 0 <= i < s@.len() ==> 48 <= #[trigger] s@[i] && s@[i] <= 57,
{
    assert forall|i: int| 0 <= i < s@.len() implies 48 <= #[trigger] s@[i] && s@[i] <= 57 by {
        assert(is_digit(s@[i]));
    }
}

/// Letters are put into lower case, all of them, and nothing else is changed.
pub proof fn lemma_lowered(s: &[u8], r: Vec<u8>, i: int)
    requires
        call_ensures(lower_bytes, (s,), r),
        0 <= i < s@.len(),
    ensures
        r@.len() == s@.len(),
        65 <= s@[i] && s@[i] <= 90 ==> r@[i] == s@[i] + 32,
        !(65 <= s@[i] && s@[i] <= 90) ==> r@[i] == s@[i],
{
}

/// The bytes that are found, cut out or compared are those that are there.
pub proof fn lemma_bytes(
    s: &[u8],
    t: &[u8],
    b: u8,
    at: Option<usize>,
    same: bool,
    rest: Option<&[u8]>,
)
    requires
        call_ensures(find_byte, (s, b), at),
        call_ensures(same_bytes, (s, t), same),
        call_ensures(strip_bytes, (s, t), rest),
    ensures
        at is None <==> !s@.contains(b),
        at matches Some(n) ==> n < s@.len() && s@[n as int] == b && !s@.take(n as int).contains(b),
        same <==> s@ == t@,
        rest matches Some(tail) ==> s@ == t@ + tail@,
        rest is None ==> !t@.is_prefix_of(s@),
{
    lemma_first_index(s@, b);
    if s@.contains(b) {
        let i = choose|i: int| 0 <= i < s@.len() && s@[i] == b;
        assert(first_index(s@, b) <= i);
    }
    if let Some(n) = at {
        assert forall|i: int| 0 <= i < n implies s@.take(n as int)[i] != b by {
            assert(s@[i] != b);
        }
    }
    if let Some(tail) = rest {
        assert(s@ =~= t@ + tail@);
    }
}

} // verus!
