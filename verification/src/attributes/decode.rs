use vstd::prelude::*;
use vstd::slice::{slice_subrange, slice_to_vec};
use vstd::utf8::{decode_utf8, encode_utf8, valid_utf8};

verus! {

/// What `utf8_decode::Decoder` yields for `bytes`: the decoded characters when
/// every step of the decoder succeeds, `None` when one of them fails.
pub uninterp spec fn utf8_decoded(bytes: Seq<u8>) -> Option<Seq<char>>;

/// The characters that stand for the bytes of `bytes` one for one.
pub open spec fn ascii_chars(bytes: Seq<u8>) -> Seq<char> {
    bytes.map_values(|b: u8| b as char)
}

/// Every byte of `bytes` is below 0x80.
pub open spec fn all_ascii(bytes: Seq<u8>) -> bool {
    forall|i: int| 0 <= i < bytes.len() ==> #[trigger] bytes[i] < 0x80
}

/// Runs `utf8_decode::Decoder` over `bytes` and collects what it yields,
/// stopping at the first character it fails to decode.
///
/// Trusted: the result is the decoder's outcome by name, and on valid UTF-8
/// each leading byte with its continuation bytes decodes to the scalar they
/// encode, so there the decoder yields what the UTF-8 standard does. (It also
/// accepts some byte sequences that are not UTF-8, such as overlong forms;
/// callers here test validity first.)
#[verifier::external_body]
fn utf8_decode_chars(bytes: &[u8]) -> (r: Option<Vec<char>>)
    ensures
        r.deep_view() == utf8_decoded(bytes@),
        valid_utf8(bytes@) ==> r.deep_view() == Some(decode_utf8(bytes@)),
{
    utf8_decode::Decoder::new(bytes.iter().cloned()).collect::<Result<Vec<char>, _>>().ok()
}

/// `String::from_utf8` of std: as its documentation says, it fails exactly
/// when `bytes` is not valid UTF-8, and otherwise gives the string that the
/// bytes encode.
#[verifier::external_body]
pub(crate) fn string_from_utf8(bytes: Vec<u8>) -> (r: Option<String>)
    ensures
        r is Some <==> valid_utf8(bytes@),
        r matches Some(s) ==> s@ == decode_utf8(bytes@),
{
    String::from_utf8(bytes).ok()
}

/// Collects characters into a `String` (std's `FromIterator<&char>` for `String`).
#[verifier::external_body]
pub(crate) fn string_from_chars(chars: &[char]) -> (s: String)
    ensures
        s@ == chars@,
{
    chars.iter().collect()
}

/// `s` with every NUL character at its end removed.
pub open spec fn trim_end_nul(s: Seq<char>) -> Seq<char>
    decreases s.len(),
{
    if s.len() > 0 && s.last() == '\0' {
        trim_end_nul(s.drop_last())
    } else {
        s
    }
}

/// `s` with every NUL character at its start removed.
pub open spec fn trim_start_nul(s: Seq<char>) -> Seq<char>
    decreases s.len(),
{
    if s.len() > 0 && s[0] == '\0' {
        trim_start_nul(s.drop_first())
    } else {
        s
    }
}

/// `s` with the NUL characters at both of its ends removed.
pub open spec fn trim_nul(s: Seq<char>) -> Seq<char> {
    trim_start_nul(trim_end_nul(s))
}

/// The characters that the UTF-8 bytes `bytes` encode, or `None` when they
/// are not valid UTF-8.
pub open spec fn utf8_text(bytes: Seq<u8>) -> Option<Seq<char>> {
    if valid_utf8(bytes) {
        Some(decode_utf8(bytes))
    } else {
        None
    }
}

/// The key and value that the 64-byte attribute record `step` holds, when it
/// holds one: bytes 0 to 7 are the key, byte 8 the length of the value (1 to
/// 55), and the value follows; both must be valid UTF-8, and both are decoded
/// and stripped of trailing NULs.
pub open spec fn attribute_of(step: Seq<u8>) -> Option<(Seq<char>, Seq<char>)> {
    let vlen = step[8] as int;
    match utf8_text(step.subrange(0, 8)) {
        None => None,
        Some(key) => {
            if vlen == 0 || vlen > 55 {
                None
            } else {
                match utf8_text(step.subrange(9, 9 + vlen)) {
                    None => None,
                    Some(value) => Some((trim_end_nul(key), trim_end_nul(value))),
                }
            }
        },
    }
}

/// The bytes that `decode_attribute` reads from `step` are all there.
pub open spec fn attribute_readable(step: Seq<u8>) -> bool {
    &&& step.len() >= 9
    &&& 1 <= step[8] <= 55 ==> 9 + step[8] <= step.len()
}

/// A key-value pair describing part of a board's hardware configuration.
///
/// In flash an attribute takes 64 bytes: an 8-byte key padded with NULs, one
/// byte giving the length of the value (1 to 55), and the value itself.
#[derive(Debug)]
pub struct DecodedAttribute {
    pub key: String,
    pub value: String,
}

impl DecodedAttribute {
    /// Builds an attribute from an already decoded key and value.
    pub fn new(decoded_key: String, decoded_value: String) -> (r: DecodedAttribute)
        ensures
            r.key@ == decoded_key@,
            r.value@ == decoded_value@,
    {
        DecodedAttribute { key: decoded_key, value: decoded_value }
    }
}

/// The characters of `chars` without the NULs at its end.
pub fn trim_end_nul_chars(chars: &[char]) -> (r: Vec<char>)
    ensures
        r@ == trim_end_nul(chars@),
{
    let mut k: usize = chars.len();
    assert(chars@.take(k as int) =~= chars@);
    while k > 0 && chars[k - 1] == '\0'
        invariant
            k <= chars.len(),
            trim_end_nul(chars@.take(k as int)) == trim_end_nul(chars@),
        decreases k,
    {
        assert(chars@.take(k as int).drop_last() =~= chars@.take(k - 1));
        k = k - 1;
    }
    let mut r: Vec<char> = Vec::new();
    let mut i: usize = 0;
    while i < k
        invariant
            i <= k <= chars.len(),
            r@ =~= chars@.take(i as int),
        decreases k - i,
    {
        r.push(chars[i]);
        i = i + 1;
    }
    r
}

/// The characters of `chars` without the NULs at either end.
pub fn trim_nul_chars(chars: &[char]) -> (r: Vec<char>)
    ensures
        r@ == trim_nul(chars@),
{
    let end = trim_end_nul_chars(chars);
    let mut s: usize = 0;
    assert(end@.skip(0) =~= end@);
    while s < end.len() && end[s] == '\0'
        invariant
            s <= end.len(),
            trim_start_nul(end@.skip(s as int)) == trim_start_nul(end@),
        decreases end.len() - s,
    {
        assert(end@.skip(s as int).drop_first() =~= end@.skip(s + 1));
        s = s + 1;
    }
    let mut r: Vec<char> = Vec::new();
    let mut i: usize = s;
    while i < end.len()
        invariant
            s <= i <= end.len(),
            r@ =~= end@.subrange(s as int, i as int),
        decreases end.len() - i,
    {
        r.push(end[i]);
        i = i + 1;
    }
    assert(r@ =~= end@.skip(s as int));
    r
}

/// Bytes below 0x80 are valid UTF-8, each byte encoding the character with
/// its code.
pub proof fn lemma_ascii_utf8(bytes: Seq<u8>)
    requires
        all_ascii(bytes),
    ensures
        valid_utf8(bytes),
        decode_utf8(bytes) == ascii_chars(bytes),
    decreases bytes.len(),
{
    if bytes.len() > 0 {
        let b = bytes[0];
        assert(b < 0x80);
        assert(b & 0x7f == b) by (bit_vector)
            requires
                b < 0x80,
        ;
        let rest = bytes.subrange(1, bytes.len() as int);
        assert(rest =~= bytes.drop_first());
        assert(all_ascii(rest)) by {
            assert forall|i: int| 0 <= i < rest.len() implies #[trigger] rest[i] < 0x80 by {
                assert(rest[i] == bytes[i + 1]);
            }
        }
        lemma_ascii_utf8(rest);
        assert(decode_utf8(bytes) =~= ascii_chars(bytes));
    }
}

/// Decodes `bytes` when they are valid UTF-8: std checks them, and the UTF-8
/// decoder then reads them.
fn decode_utf8_text(bytes: &[u8]) -> (r: Option<Vec<char>>)
    ensures
        r.deep_view() == utf8_text(bytes@),
{
    if string_from_utf8(slice_to_vec(bytes)).is_some() {
        utf8_decode_chars(bytes)
    } else {
        None
    }
}

/// Decodes an attribute record: `None` when the value length is not between 1
/// and 55, or when the key or the value is not valid UTF-8.
pub fn decode_attribute(step: &[u8]) -> (r: Option<DecodedAttribute>)
    requires
        attribute_readable(step@),
    ensures
        r is None <==> attribute_of(step@) is None,
        r matches Some(a) ==> attribute_of(step@) == Some((a.key@, a.value@)),
        r matches Some(a) ==> a.key@.len() == 0 || a.key@.last() != '\0',
        r matches Some(a) ==> a.value@.len() == 0 || a.value@.last() != '\0',
        1 <= step@[8] <= 55 && all_ascii(step@.subrange(0, 8)) && all_ascii(
            step@.subrange(9, 9 + step@[8] as int),
        ) ==> (r matches Some(a) && a.key@ == trim_end_nul(ascii_chars(step@.subrange(0, 8)))
            && a.value@ == trim_end_nul(ascii_chars(step@.subrange(9, 9 + step@[8] as int)))),
{
    proof {
        if attribute_of(step@) is Some {
            lemma_attribute_has_no_trailing_nul(step@);
        }
        if 1 <= step@[8] <= 55 && all_ascii(step@.subrange(0, 8)) && all_ascii(
            step@.subrange(9, 9 + step@[8] as int),
        ) {
            lemma_ascii_utf8(step@.subrange(0, 8));
            lemma_ascii_utf8(step@.subrange(9, 9 + step@[8] as int));
        }
    }
    let raw_key = slice_subrange(step, 0, 8);
    let key_chars = match decode_utf8_text(raw_key) {
        Some(chars) => chars,
        None => return None,
    };
    assert(key_chars.deep_view() =~= key_chars@);
    let key = string_from_chars(trim_end_nul_chars(key_chars.as_slice()).as_slice());
    let vlen: u8 = step[8];
    if vlen > 55 || vlen == 0 {
        return None;
    }
    let raw_value = slice_subrange(step, 9, 9 + vlen as usize);
    let value_chars = match decode_utf8_text(raw_value) {
        Some(chars) => chars,
        None => return None,
    };
    assert(value_chars.deep_view() =~= value_chars@);
    let value = string_from_chars(trim_end_nul_chars(value_chars.as_slice()).as_slice());
    Some(DecodedAttribute::new(key, value))
}

/// Decodes `raw` when it is valid UTF-8, or `None`.
pub fn try_bytes_to_string(raw: &[u8]) -> (r: Option<String>)
    ensures
        r is None <==> !valid_utf8(raw@),
        r matches Some(s) ==> s@ == decode_utf8(raw@),
        all_ascii(raw@) ==> (r matches Some(s) && s@ == ascii_chars(raw@)),
{
    proof {
        if all_ascii(raw@) {
            lemma_ascii_utf8(raw@);
        }
    }
    if string_from_utf8(slice_to_vec(raw)).is_some() {
        Some(bytes_to_string(raw))
    } else {
        None
    }
}

/// Decodes `raw`, which must be valid UTF-8, into a `String`.
pub fn bytes_to_string(raw: &[u8]) -> (s: String)
    requires
        valid_utf8(raw@),
    ensures
        s@ == decode_utf8(raw@),
{
    match utf8_decode_chars(raw) {
        Some(chars) => {
            assert(chars.deep_view() =~= chars@);
            string_from_chars(chars.as_slice())
        },
        None => String::new(),
    }
}

/// `trim_end_nul(s)` is `s` up to its trailing NULs: a prefix of `s` that does
/// not end in NUL, after which `s` holds only NULs.
pub proof fn lemma_trim_end_nul(s: Seq<char>)
    ensures
        trim_end_nul(s).len() <= s.len(),
        trim_end_nul(s) == s.take(trim_end_nul(s).len() as int),
        trim_end_nul(s).len() == 0 || trim_end_nul(s).last() != '\0',
        forall|i: int| trim_end_nul(s).len() <= i < s.len() ==> s[i] == '\0',
    decreases s.len(),
{
    if s.len() > 0 && s.last() == '\0' {
        lemma_trim_end_nul(s.drop_last());
        let t = trim_end_nul(s.drop_last());
        assert(s.drop_last().take(t.len() as int) =~= s.take(t.len() as int));
        assert forall|i: int| t.len() <= i < s.len() implies s[i] == '\0' by {
            if i < s.len() - 1 {
                assert(s.drop_last()[i] == s[i]);
            }
        }
    } else {
        assert(s.take(s.len() as int) =~= s);
    }
}

/// `trim_start_nul(s)` is `s` after its leading NULs: a suffix of `s` that does
/// not start with NUL, before which `s` holds only NULs.
pub proof fn lemma_trim_start_nul(s: Seq<char>)
    ensures
        trim_start_nul(s).len() <= s.len(),
        trim_start_nul(s) == s.skip(s.len() - trim_start_nul(s).len()),
        trim_start_nul(s).len() == 0 || trim_start_nul(s)[0] != '\0',
        forall|i: int| 0 <= i < s.len() - trim_start_nul(s).len() ==> s[i] == '\0',
    decreases s.len(),
{
    if s.len() > 0 && s[0] == '\0' {
        lemma_trim_start_nul(s.drop_first());
        let t = trim_start_nul(s.drop_first());
        assert(s.drop_first().skip(s.len() - 1 - t.len()) =~= s.skip(s.len() - t.len()));
        assert forall|i: int| 0 <= i < s.len() - t.len() implies s[i] == '\0' by {
            if i > 0 {
                assert(s.drop_first()[i - 1] == s[i]);
            }
        }
    } else {
        assert(s.skip(0) =~= s);
    }
}

/// A decoded attribute keeps no NUL at the end of its key or of its value.
pub proof fn lemma_attribute_has_no_trailing_nul(step: Seq<u8>)
    requires
        attribute_of(step) is Some,
    ensures
        ({
            let (key, value) = attribute_of(step)->0;
            &&& key.len() == 0 || key.last() != '\0'
            &&& value.len() == 0 || value.last() != '\0'
        }),
{
    let k = utf8_text(step.subrange(0, 8))->0;
    let v = utf8_text(step.subrange(9, 9 + step[8] as int))->0;
    lemma_trim_end_nul(k);
    lemma_trim_end_nul(v);
}

/// The bytes of a string are valid UTF-8 and decode back to the string, so
/// [`bytes_to_string`] gives back the string whose bytes it is handed.
pub proof fn lemma_string_bytes_decode(chars: Seq<char>)
    ensures
        valid_utf8(encode_utf8(chars)),
        decode_utf8(encode_utf8(chars)) == chars,
{
    vstd::utf8::encode_utf8_valid_utf8(chars);
    vstd::utf8::encode_utf8_decode_utf8(chars);
}

} // verus!
