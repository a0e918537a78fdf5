//! Strong entity tags.

use crate::headers::{all_value_bytes, is_value_byte, value_bytes};
use http::HeaderValue;
use vstd::prelude::*;

verus! {

/// A strong entity tag: a hash of the bytes of a file.
#[derive(Debug, Hash, Eq, PartialEq, Structural, Clone, Copy)]
pub struct ETag(pub u64);

/// The four bits of `v` at place `i` of sixteen, the highest first.
pub open spec fn nibble(v: u64, i: int) -> u64 {
    (v >> (((15 - i) * 4) as u64)) & 0xf
}

/// The hexadecimal digit, in lower case, of a number below sixteen.
pub open spec fn hex_digit(n: u64) -> u8 {
    if n < 10 {
        (48 + n) as u8
    } else {
        (87 + n) as u8
    }
}

/// The sixteen hexadecimal digits of `v`.
pub open spec fn hex_digits(v: u64) -> Seq<u8> {
    Seq::new(16, |i: int| hex_digit(nibble(v, i)))
}

impl ETag {
    /// The text of the tag: its digits between double quotes.
    pub open spec fn quoted(self) -> Seq<u8> {
        seq![34u8] + hex_digits(self.0) + seq![34u8]
    }

    /// Writes the hash as sixteen hexadecimal digits.
    pub fn to_bytes(self) -> (r: [u8; 16])
        ensures
            r@ == hex_digits(self.0),
    {
        let mut buf = [0u8;16];
        let val = self.0;
        let mut i: usize = 0;
        while i < 16
            invariant
                i <= 16,
                val == self.0,
                forall|j: int| 0 <= j < i ==> buf@[j] == hex_digit(nibble(val, j)),
            decreases 16 - i,
        {
            let shift: u64 = ((15 - i) * 4) as u64;
            let n: u64 = (val >> shift) & 0xf;
            assert(n == nibble(val, i as int));
            assert((val >> shift) & 0xf <= 15) by (bit_vector);
            let digit: u8 = if n < 10 {
                48 + n as u8
            } else {
                87 + n as u8
            };
            buf[i] = digit;
            i = i + 1;
        }
        assert(buf@ =~= hex_digits(self.0));
        buf
    }
}

impl vstd::std_specs::convert::FromSpecImpl<ETag> for HeaderValue {
    open spec fn obeys_from_spec() -> bool {
        false
    }

    open spec fn from_spec(etag: ETag) -> Self {
        choose|v: HeaderValue| value_bytes(v) == etag.quoted()
    }
}

impl From<ETag> for HeaderValue {
    fn from(etag: ETag) -> (r: Self)
        ensures
            value_bytes(r) == etag.quoted(),
    {
        let mut buf: Vec<u8> = Vec::with_capacity(18);
        let digits = etag.to_bytes();
        buf.push(34);
        let mut i: usize = 0;
        while i < 16
            invariant
                i <= 16,
                digits@ == hex_digits(etag.0),
                buf@ =~= seq![34u8] + hex_digits(etag.0).take(i as int),
            decreases 16 - i,
        {
            buf.push(digits[i]);
            i = i + 1;
        }
        buf.push(34);
        assert(buf@ =~= etag.quoted());
        proof {
            lemma_quoted_is_value(etag);
        }
        HeaderValue::from_bytes(buf.as_slice()).expect("failed to serialize etag")
    }
}

/// The text of a tag may stand in a header.
proof fn lemma_quoted_is_value(etag: ETag)
    ensures
        all_value_bytes(etag.quoted()),
{
    let text = etag.quoted();
    assert forall|i: int| 0 <= i < text.len() implies is_value_byte(#[trigger] text[i]) by {
        if 0 < i < 17 {
            let v = etag.0;
            let shift = ((15 - (i - 1)) * 4) as u64;
            assert(text[i] == hex_digit(nibble(v, i - 1)));
            assert((v >> shift) & 0xf <= 15) by (bit_vector);
        }
    }
}

/// Two tags of different hashes have different texts.
pub proof fn lemma_text_tells_apart(a: ETag, b: ETag)
    requires
        a.quoted() == b.quoted(),
    ensures
        a == b,
{
    let x = a.0;
    let y = b.0;
    assert forall|i: int| 0 <= i < 16 implies #[trigger] nibble(x, i) == nibble(y, i) by {
        assert(a.quoted()[i + 1] == hex_digit(nibble(x, i)));
        assert(b.quoted()[i + 1] == hex_digit(nibble(y, i)));
        let shift = ((15 - i) * 4) as u64;
        assert((x >> shift) & 0xf <= 15) by (bit_vector);
        assert((y >> shift) & 0xf <= 15) by (bit_vector);
    }
    assert(nibble(x, 0) == nibble(y, 0) && nibble(x, 1) == nibble(y, 1) && nibble(x, 2) == nibble(
        y,
        2,
    ) && nibble(x, 3) == nibble(y, 3) && nibble(x, 4) == nibble(y, 4) && nibble(x, 5) == nibble(
        y,
        5,
    ) && nibble(x, 6) == nibble(y, 6) && nibble(x, 7) == nibble(y, 7) && nibble(x, 8) == nibble(
        y,
        8,
    ) && nibble(x, 9) == nibble(y, 9) && nibble(x, 10) == nibble(y, 10) && nibble(x, 11) == nibble(
        y,
        11,
    ) && nibble(x, 12) == nibble(y, 12) && nibble(x, 13) == nibble(y, 13) && nibble(x, 14)
        == nibble(y, 14) && nibble(x, 15) == nibble(y, 15));
    assert(x == y) by (bit_vector)
        requires
            (x >> 60u64) & 0xf == (y >> 60u64) & 0xf,
            (x >> 56u64) & 0xf == (y >> 56u64) & 0xf,
            (x >> 52u64) & 0xf == (y >> 52u64) & 0xf,
            (x >> 48u64) & 0xf == (y >> 48u64) & 0xf,
            (x >> 44u64) & 0xf == (y >> 44u64) & 0xf,
            (x >> 40u64) & 0xf == (y >> 40u64) & 0xf,
            (x >> 36u64) & 0xf == (y >> 36u64) & 0xf,
            (x >> 32u64) & 0xf == (y >> 32u64) & 0xf,
            (x >> 28u64) & 0xf == (y >> 28u64) & 0xf,
            (x >> 24u64) & 0xf == (y >> 24u64) & 0xf,
            (x >> 20u64) & 0xf == (y >> 20u64) & 0xf,
            (x >> 16u64) & 0xf == (y >> 16u64) & 0xf,
            (x >> 12u64) & 0xf == (y >> 12u64) & 0xf,
            (x >> 8u64) & 0xf == (y >> 8u64) & 0xf,
            (x >> 4u64) & 0xf == (y >> 4u64) & 0xf,
            (x >> 0u64) & 0xf == (y >> 0u64) & 0xf,
    ;
}

/// The number below sixteen that a hexadecimal digit stands for.
pub open spec fn digit_value(digit: u8) -> int {
    if 48 <= digit && digit <= 57 {
        digit - 48
    } else if 97 <= digit && digit <= 102 {
        digit - 97 + 10
    } else {
        -1
    }
}

/// The number that hexadecimal digits write, the highest first.
pub open spec fn hex_value(digits: Seq<u8>) -> int
    decreases digits.len(),
{
    if digits.len() == 0 {
        0
    } else {
        hex_value(digits.drop_last()) * 16 + digit_value(digits.last())
    }
}

/// The first `n` digits write the number without its lower bits.
proof fn lemma_first_digits(v: u64, n: int)
    requires
        0 <= n <= 16,
    ensures
        n == 0 ==> hex_value(hex_digits(v).take(n)) == 0,
        n > 0 ==> hex_value(hex_digits(v).take(n)) == (v >> (((16 - n) * 4) as u64)),
    decreases n,
{
    let digits = hex_digits(v);
    if n > 0 {
        lemma_first_digits(v, n - 1);
        assert(digits.take(n).drop_last() =~= digits.take(n - 1));
        let shift = ((16 - n) * 4) as u64;
        let before = if n > 1 {
            v >> ((shift + 4) as u64)
        } else {
            0
        };
        let low = (v >> shift) & 0xf;
        assert(digits.take(n).last() == hex_digit(nibble(v, n - 1)));
        assert(low <= 15) by (bit_vector)
            requires
                low == (v >> shift) & 0xf,
        ;
        assert(digit_value(hex_digit(low)) == low);
        if n > 1 {
            let more = (shift + 4) as u64;
            assert((v >> more) * 16 + low == (v >> shift) && (v >> more) <= 0xfff_ffff_ffff_ffff)
                by (bit_vector)
                requires
                    low == (v >> shift) & 0xf,
                    more == shift + 4,
                    more <= 60,
            ;
        } else {
            assert(low == (v >> shift)) by (bit_vector)
                requires
                    low == (v >> shift) & 0xf,
                    shift == 60,
            ;
        }
    } else {
        assert(digits.take(0) =~= Seq::<u8>::empty());
    }
}

/// The sixteen digits are those of the hash in base sixteen, in lower case, zeros in front
/// included; in a header they stand between double quotes.
pub proof fn lemma_tag_text(etag: ETag, digits: [u8; 16], value: HeaderValue)
    requires
        call_ensures(ETag::to_bytes, (etag,), digits),
        call_ensures(<HeaderValue as From<ETag>>::from, (etag,), value),
    ensures
        hex_value(digits@) == etag.0,
        forall|i: int| 0 <= i < 16 ==> digit_value(#[trigger] digits@[i]) >= 0,
        value_bytes(value) == seq![34u8] + digits@ + seq![34u8],
{
    let v = etag.0;
    lemma_first_digits(v, 16);
    assert(digits@.take(16) =~= digits@);
    assert(v >> 0 == v) by (bit_vector);
    assert forall|i: int| 0 <= i < 16 implies digit_value(#[trigger] digits@[i]) >= 0 by {
        let shift = ((15 - i) * 4) as u64;
        assert(digits@[i] == hex_digit(nibble(v, i)));
        assert((v >> shift) & 0xf <= 15) by (bit_vector);
    }
}

} // verus!
