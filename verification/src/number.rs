use byteorder::{ByteOrder, LittleEndian};
use vstd::prelude::*;

verus! {

/// The value of `c` as a digit in base 16 (`0`-`9`, `a`-`f`, `A`-`F`).
pub open spec fn hex_digit(c: char) -> Option<nat> {
    let u = c as u32;
    if 0x30 <= u <= 0x39 {
        Some((u - 0x30) as nat)
    } else if 0x61 <= u <= 0x66 {
        Some((u - 0x61 + 10) as nat)
    } else if 0x41 <= u <= 0x46 {
        Some((u - 0x41 + 10) as nat)
    } else {
        None
    }
}

/// The number that the base-16 digits `s` spell, most significant first;
/// `None` when one of them is not a digit.
pub open spec fn hex_digits_value(s: Seq<char>) -> Option<nat>
    decreases s.len(),
{
    if s.len() == 0 {
        Some(0)
    } else {
        match (hex_digits_value(s.drop_last()), hex_digit(s.last())) {
            (Some(v), Some(d)) => Some(v * 16 + d),
            _ => None,
        }
    }
}

/// What `u64::from_str_radix(s, 16)` accepts, as std documents it: an optional
/// `+` followed by at least one base-16 digit, whose value fits in a `u64`.
pub open spec fn radix16_u64(s: Seq<char>) -> Option<u64> {
    let digits = if s.len() > 0 && s[0] == '+' {
        s.drop_first()
    } else {
        s
    };
    if digits.len() == 0 {
        None
    } else {
        match hex_digits_value(digits) {
            Some(v) => if v <= u64::MAX {
                Some(v as u64)
            } else {
                None
            },
            None => None,
        }
    }
}

/// `s` without any number of leading `"0x"`.
pub open spec fn strip_hex_prefix(s: Seq<char>) -> Seq<char>
    decreases s.len(),
{
    if s.len() >= 2 && s[0] == '0' && s[1] == 'x' {
        strip_hex_prefix(s.skip(2))
    } else {
        s
    }
}

/// The address that an attribute value such as `"0x40000"` spells.
pub open spec fn hex_address(s: Seq<char>) -> Option<u64> {
    radix16_u64(strip_hex_prefix(s))
}

/// The base-16 digits in lower case, in order of value.
pub open spec fn lower_hex_digits() -> Seq<char> {
    seq!['0', '1', '2', '3', '4', '5', '6', '7', '8', '9', 'a', 'b', 'c', 'd', 'e', 'f']
}

/// The base-16 digits in upper case, in order of value.
pub open spec fn upper_hex_digits() -> Seq<char> {
    seq!['0', '1', '2', '3', '4', '5', '6', '7', '8', '9', 'A', 'B', 'C', 'D', 'E', 'F']
}

/// The base-16 digits are exactly `0`-`9`, `a`-`f` and `A`-`F`, each with its
/// value: the digit of value `d`, in either case, reads as `d`, and whatever
/// reads as a digit is one of these.
pub proof fn lemma_hex_digits_are_standard()
    ensures
        forall|d: int|
            0 <= d < 16 ==> hex_digit(#[trigger] lower_hex_digits()[d]) == Some(d as nat)
                && hex_digit(upper_hex_digits()[d]) == Some(d as nat),
        forall|c: char|
            #[trigger] hex_digit(c) is Some ==> hex_digit(c)->0 < 16 && (c
                == lower_hex_digits()[hex_digit(c)->0 as int] || c
                == upper_hex_digits()[hex_digit(c)->0 as int]),
{
    let lo = lower_hex_digits();
    let up = upper_hex_digits();
    assert forall|d: int| 0 <= d < 16 implies hex_digit(#[trigger] lo[d]) == Some(d as nat)
        && hex_digit(up[d]) == Some(d as nat) by {
        assert(lo[0] == '0' && lo[1] == '1' && lo[2] == '2' && lo[3] == '3' && lo[4] == '4');
        assert(lo[5] == '5' && lo[6] == '6' && lo[7] == '7' && lo[8] == '8' && lo[9] == '9');
        assert(lo[10] == 'a' && lo[11] == 'b' && lo[12] == 'c' && lo[13] == 'd' && lo[14] == 'e'
            && lo[15] == 'f');
        assert(up[10] == 'A' && up[11] == 'B' && up[12] == 'C' && up[13] == 'D' && up[14] == 'E'
            && up[15] == 'F');
        assert(forall|i: int| 0 <= i < 10 ==> up[i] == lo[i]);
    }
    assert forall|c: char| #[trigger] hex_digit(c) is Some implies hex_digit(c)->0 < 16 && (c
        == lo[hex_digit(c)->0 as int] || c == up[hex_digit(c)->0 as int]) by {
        let u = c as u32;
        let d = hex_digit(c)->0 as int;
        vstd::utf8::char_u32_cast(c, u);
        if 0x30 <= u <= 0x39 || 0x61 <= u <= 0x66 {
            assert(lo[d] as u32 == u);
            vstd::utf8::char_u32_cast(lo[d], u);
        } else {
            assert(up[d] as u32 == u);
            vstd::utf8::char_u32_cast(up[d], u);
        }
    }
}

/// A prefix of a run of digits is a run of digits of no greater value.
proof fn lemma_hex_prefix(s: Seq<char>, i: int)
    requires
        0 <= i <= s.len(),
        hex_digits_value(s) is Some,
    ensures
        hex_digits_value(s.take(i)) is Some,
        hex_digits_value(s.take(i))->0 <= hex_digits_value(s)->0,
        i < s.len() ==> hex_digit(s[i]) is Some,
    decreases s.len(),
{
    if i == s.len() {
        assert(s.take(i) =~= s);
    } else {
        lemma_hex_prefix(s.drop_last(), i);
        assert(s.drop_last().take(i) =~= s.take(i));
        if i < s.len() - 1 {
            assert(s.drop_last()[i] == s[i]);
        }
    }
}

/// The value of one base-16 digit.
fn hex_digit_value(c: char) -> (r: Option<u64>)
    ensures
        r matches Some(d) ==> hex_digit(c) == Some(d as nat),
        r is None <==> hex_digit(c) is None,
{
    let u: u32 = c as u32;
    if 0x30 <= u && u <= 0x39 {
        Some((u - 0x30) as u64)
    } else if 0x61 <= u && u <= 0x66 {
        Some((u - 0x61 + 10) as u64)
    } else if 0x41 <= u && u <= 0x46 {
        Some((u - 0x41 + 10) as u64)
    } else {
        None
    }
}

/// Parses `s` as `u64::from_str_radix(s, 16)` does.
pub fn parse_radix16_u64(s: &[char]) -> (r: Option<u64>)
    ensures
        r == radix16_u64(s@),
{
    let start: usize = if s.len() > 0 && s[0] == '+' {
        1
    } else {
        0
    };
    let ghost digits = s@.skip(start as int);
    assert(start == 1 ==> digits =~= s@.drop_first());
    assert(start == 0 ==> digits =~= s@);
    if start == s.len() {
        return None;
    }
    let mut acc: u64 = 0;
    let mut i: usize = start;
    assert(digits.take(0) =~= Seq::<char>::empty());
    while i < s.len()
        invariant
            start <= i <= s.len(),
            start < s.len(),
            digits == s@.skip(start as int),
            digits == (if s@.len() > 0 && s@[0] == '+' {
                s@.drop_first()
            } else {
                s@
            }),
            hex_digits_value(digits.take(i - start)) == Some(acc as nat),
        decreases s.len() - i,
    {
        let ghost k = i - start;
        assert(digits.take(k + 1).drop_last() =~= digits.take(k));
        assert(digits.take(k + 1).last() == s@[i as int]);
        assert(digits[k] == s@[i as int]);
        let d: u64 = match hex_digit_value(s[i]) {
            Some(d) => d,
            None => {
                proof {
                    if hex_digits_value(digits) is Some {
                        lemma_hex_prefix(digits, k);
                    }
                }
                return None;
            },
        };
        let next = match acc.checked_mul(16) {
            Some(m) => m.checked_add(d),
            None => None,
        };
        match next {
            Some(n) => {
                acc = n;
            },
            None => {
                proof {
                    if hex_digits_value(digits) is Some {
                        lemma_hex_prefix(digits, k + 1);
                    }
                }
                return None;
            },
        }
        i = i + 1;
    }
    assert(digits.take(s.len() - start) =~= digits);
    Some(acc)
}

/// Parses an attribute value such as `"0x40000"`: every leading `"0x"` is
/// dropped and the rest read in base 16.
pub fn parse_hex_address(s: &[char]) -> (r: Option<u64>)
    ensures
        r == hex_address(s@),
{
    let mut i: usize = 0;
    assert(s@.skip(0) =~= s@);
    while s.len() - i >= 2 && s[i] == '0' && s[i + 1] == 'x'
        invariant
            i <= s.len(),
            strip_hex_prefix(s@.skip(i as int)) == strip_hex_prefix(s@),
        decreases s.len() - i,
    {
        assert(s@.skip(i as int).skip(2) =~= s@.skip(i + 2));
        i = i + 2;
    }
    let rest = vstd::slice::slice_subrange(s, i, s.len());
    assert(rest@ =~= s@.skip(i as int));
    parse_radix16_u64(rest)
}

/// The first four bytes of `b` read as a little-endian number.
pub open spec fn le_u32(b: Seq<u8>) -> int {
    b[0] + 256 * b[1] + 65536 * b[2] + 16777216 * b[3]
}

/// All the bytes of `b` read as a little-endian number.
pub open spec fn le_uint(b: Seq<u8>) -> nat
    decreases b.len(),
{
    if b.len() == 0 {
        0
    } else {
        (b[0] + 256 * le_uint(b.drop_first())) as nat
    }
}

/// `LittleEndian::read_u32` of byteorder: the first four bytes of `buf` as a
/// little-endian `u32` (its source is `u32::from_le_bytes(buf[..4])`).
#[verifier::external_body]
pub(crate) fn read_u32_le(buf: &[u8]) -> (r: u32)
    requires
        buf.len() >= 4,
    ensures
        r as int == le_u32(buf@),
{
    LittleEndian::read_u32(buf)
}

/// `LittleEndian::read_uint` of byteorder: the first `nbytes` bytes of `buf`
/// as a little-endian `u64`; it asserts that `nbytes` is 1 to 8 and no more
/// than the length of `buf`.
#[verifier::external_body]
pub(crate) fn read_uint_le(buf: &[u8], nbytes: usize) -> (r: u64)
    requires
        1 <= nbytes <= 8,
        nbytes <= buf.len(),
    ensures
        r as int == le_uint(buf@.take(nbytes as int)),
{
    LittleEndian::read_uint(buf, nbytes)
}

} // verus!
