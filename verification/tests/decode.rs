use tockloader_lib::attributes::decode::{bytes_to_string, decode_attribute, try_bytes_to_string, DecodedAttribute};

fn record(key: &[u8], vlen: u8, value: &[u8]) -> Vec<u8> {
    let mut r = vec![0u8; 64];
    r[..key.len()].copy_from_slice(key);
    r[8] = vlen;
    r[9..9 + value.len()].copy_from_slice(value);
    r
}

#[test]
fn decode_attribute_reads_key_and_value() {
    let r = record(b"board", 8, b"microbit");
    let a = decode_attribute(&r).expect("valid record");
    assert_eq!(a.key, "board");
    assert_eq!(a.value, "microbit");
}

#[test]
fn decode_attribute_strips_trailing_nuls() {
    let r = record(b"arch\0\0\0\0", 12, b"cortex-m4\0\0\0");
    let a = decode_attribute(&r).expect("valid record");
    assert_eq!(a.key, "arch");
    assert_eq!(a.value, "cortex-m4");
}

#[test]
fn decode_attribute_keeps_inner_nuls() {
    let r = record(b"k\0y", 3, b"a\0b");
    let a = decode_attribute(&r).expect("valid record");
    assert_eq!(a.key, "k\0y");
    assert_eq!(a.value, "a\0b");
}

#[test]
fn decode_attribute_rejects_zero_length() {
    let r = record(b"board", 0, b"");
    assert!(decode_attribute(&r).is_none());
}

#[test]
fn decode_attribute_rejects_overlong_value() {
    let r = record(b"board", 56, b"x");
    assert!(decode_attribute(&r).is_none());
}

#[test]
fn decode_attribute_accepts_longest_value() {
    let value = [b'v'; 55];
    let r = record(b"key", 55, &value);
    let a = decode_attribute(&r).expect("valid record");
    assert_eq!(a.value.len(), 55);
}

#[test]
fn decode_attribute_rejects_invalid_utf8_value() {
    let r = record(b"board", 2, &[0xff, 0x41]);
    assert!(decode_attribute(&r).is_none());
}

#[test]
fn decode_attribute_rejects_invalid_utf8_key() {
    let r = record(&[0x80, 0x41], 1, b"x");
    assert!(decode_attribute(&r).is_none());
}

#[test]
fn decode_attribute_decodes_multibyte_characters() {
    // "é" is C3 A9, "€" is E2 82 AC
    let r = record(&[0xc3, 0xa9], 3, &[0xe2, 0x82, 0xac]);
    let a = decode_attribute(&r).expect("valid record");
    assert_eq!(a.key, "é");
    assert_eq!(a.value, "€");
}

#[test]
fn decode_attribute_reads_only_the_stated_length() {
    let r = record(b"board", 3, b"abcdef");
    let a = decode_attribute(&r).expect("valid record");
    assert_eq!(a.value, "abc");
}

#[test]
fn decoded_attribute_new_keeps_fields() {
    let a = DecodedAttribute::new("k".to_string(), "v".to_string());
    assert_eq!(a.key, "k");
    assert_eq!(a.value, "v");
}

#[test]
fn bytes_to_string_decodes() {
    assert_eq!(bytes_to_string(b"TOCK"), "TOCK");
    assert_eq!(bytes_to_string(&[0xc3, 0xa9, 0x21]), "é!");
    assert_eq!(bytes_to_string(b""), "");
}

#[test]
fn try_bytes_to_string_reports_invalid_utf8() {
    assert_eq!(try_bytes_to_string(b"TOCK"), Some("TOCK".to_string()));
    assert_eq!(try_bytes_to_string(&[0xc3]), None);
    assert_eq!(try_bytes_to_string(&[0xfe, 0x41]), None);
}

#[test]
fn decode_attribute_rejects_overlong_bytes() {
    // C0 80 is an overlong form of U+0000, which is not UTF-8
    let r = record(&[b'k', 0xc0, 0x80], 1, b"v");
    assert!(decode_attribute(&r).is_none());
    let r = record(b"k", 2, &[0xc0, 0x80]);
    assert!(decode_attribute(&r).is_none());
}

#[test]
fn decode_attribute_rejects_surrogates() {
    // ED A0 80 would encode U+D800, a surrogate
    let r = record(b"k", 3, &[0xed, 0xa0, 0x80]);
    assert!(decode_attribute(&r).is_none());
}

#[test]
fn try_bytes_to_string_rejects_overlong_bytes() {
    assert_eq!(try_bytes_to_string(&[0xc0, 0x80]), None);
    assert_eq!(try_bytes_to_string(&[0xe0, 0x80, 0x80]), None);
}

#[test]
fn bytes_to_string_gives_back_a_string() {
    for s in ["", "TOCK", "héllo", "€ and 𝄞"] {
        assert_eq!(bytes_to_string(s.as_bytes()), s);
        assert_eq!(try_bytes_to_string(s.as_bytes()).as_deref(), Some(s));
    }
}
