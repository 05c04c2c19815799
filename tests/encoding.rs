use bencode::{
    bytes_less, encode_bytes, encode_integer, encode_list, BencodeValue, Dict,
};

fn text(bytes: Vec<u8>) -> String {
    String::from_utf8(bytes).unwrap()
}

fn bytes(s: &str) -> BencodeValue {
    BencodeValue::ByteString(s.as_bytes().to_vec())
}

fn integer(n: i64) -> BencodeValue {
    BencodeValue::Integer(n)
}

fn sample_dict() -> Dict {
    let mut d = Dict::new();
    d.insert("name1".as_bytes().to_vec(), bytes("value"));
    d.insert("name2".as_bytes().to_vec(), integer(50));
    d
}

#[test]
fn ser_string() {
    assert_eq!(text(encode_bytes("".as_bytes())), "0:");
    assert_eq!(text(encode_bytes("spam".as_bytes())), "4:spam");
}

#[test]
fn ser_int() {
    assert_eq!(text(encode_integer(0)), "i0e");
    assert_eq!(text(encode_integer(-0)), "i0e");
    assert_eq!(text(encode_integer(3)), "i3e");
    assert_eq!(text(encode_integer(-3)), "i-3e");
    assert_eq!(text(encode_integer(i64::MAX)), "i9223372036854775807e");
    assert_eq!(text(encode_integer(i64::MIN)), "i-9223372036854775808e");
}

#[test]
fn ser_list() {
    assert_eq!(text(encode_list(&Vec::<BencodeValue>::new())), "le");
    assert_eq!(text(encode_list(&vec![integer(1), integer(2)])), "li1ei2ee");
    assert_eq!(text(encode_list(&[integer(1), integer(2), integer(3)])), "li1ei2ei3ee");
    assert_eq!(text(encode_list(&vec![bytes("hi"), bytes("world")])), "l2:hi5:worlde");
}

#[test]
fn ser_dict() {
    assert_eq!(text(Dict::new().encode()), "de");
    let sut1 = sample_dict();
    assert_eq!(text(sut1.encode()), "d5:name15:value5:name2i50ee");
}

#[test]
fn value_encode_dispatches_on_kind() {
    assert_eq!(text(bytes("spam").encode()), "4:spam");
    assert_eq!(text(integer(-42).encode()), "i-42e");
    assert_eq!(text(BencodeValue::List(vec![integer(1), bytes("a")]).encode()), "li1e1:ae");
    assert_eq!(text(BencodeValue::Dictionary(sample_dict()).encode()), "d5:name15:value5:name2i50ee");
}

#[test]
fn integer_formula_values() {
    assert_eq!(text(encode_integer(10)), "i10e");
    assert_eq!(text(encode_integer(-100)), "i-100e");
    assert_eq!(text(encode_integer(1234567890)), "i1234567890e");
    assert_eq!(text(encode_integer(0 - 0)), "i0e");
}

#[test]
fn byte_length_counts_bytes_not_chars() {
    assert_eq!(text(encode_bytes("é".as_bytes())), "2:é");
    assert_eq!(encode_bytes(&[0u8, 255u8]), vec![b'2', b':', 0u8, 255u8]);
    let long = "x".repeat(12);
    assert_eq!(text(encode_bytes(long.as_bytes())), format!("12:{}", long));
}

#[test]
fn empty_containers() {
    assert_eq!(text(BencodeValue::List(Vec::new()).encode()), "le");
    assert_eq!(text(BencodeValue::Dictionary(Dict::new()).encode()), "de");
}

#[test]
fn dict_keys_come_out_sorted_bytewise() {
    let mut d = Dict::new();
    d.insert("zeta".as_bytes().to_vec(), integer(1));
    d.insert("ab".as_bytes().to_vec(), integer(2));
    d.insert("a".as_bytes().to_vec(), integer(3));
    d.insert("B".as_bytes().to_vec(), integer(4));
    assert_eq!(d.len(), 4);
    assert_eq!(text(d.encode()), "d1:Bi4e1:ai3e2:abi2e4:zetai1ee");
    assert_eq!(d.key(0), &"B".as_bytes().to_vec());
    assert_eq!(d.value(3), &integer(1));
}

#[test]
fn dict_insert_with_equal_key_replaces_value() {
    let mut d = sample_dict();
    d.insert("name1".as_bytes().to_vec(), integer(7));
    assert_eq!(d.len(), 2);
    assert_eq!(text(d.encode()), "d5:name1i7e5:name2i50ee");
}

#[test]
fn nested_dictionaries_and_lists() {
    let mut outer = Dict::new();
    outer.insert("k2".as_bytes().to_vec(), BencodeValue::Dictionary(sample_dict()));
    outer.insert("k1".as_bytes().to_vec(), BencodeValue::Dictionary(sample_dict()));
    assert_eq!(
        text(outer.encode()),
        "d2:k1d5:name15:value5:name2i50ee2:k2d5:name15:value5:name2i50eee"
    );
    let mut inner = Dict::new();
    inner.insert("l".as_bytes().to_vec(), BencodeValue::List(vec![integer(1), BencodeValue::List(Vec::new())]));
    let v = BencodeValue::List(vec![BencodeValue::Dictionary(inner), integer(2)]);
    assert_eq!(text(v.encode()), "ld1:lli1eleeei2ee");
}

#[test]
fn encoding_twice_gives_same_text() {
    let v = BencodeValue::List(vec![bytes("hi"), BencodeValue::Dictionary(sample_dict()), integer(-5)]);
    let first = v.encode();
    let second = v.encode();
    assert_eq!(first, second);
}

#[test]
fn byte_string_encodings_are_distinct_and_prefix_free() {
    assert_ne!(encode_bytes("abc".as_bytes()), encode_bytes("abd".as_bytes()));
    let short = encode_bytes("ab".as_bytes());
    let long = encode_bytes("abcdefghijk".as_bytes());
    assert!(!long.starts_with(&short));
    assert!(!short.starts_with(&long));
    assert_ne!(encode_integer(12), encode_integer(-12));
}

#[test]
fn concatenated_list_splits_back_into_items() {
    let items = vec![bytes("10"), integer(10), bytes(""), bytes("i1e")];
    let whole = encode_list(&items);
    let mut joined: Vec<u8> = vec![b'l'];
    for item in &items {
        joined.extend(item.encode());
    }
    joined.push(b'e');
    assert_eq!(whole, joined);
    assert_eq!(text(whole), "l2:10i10e0:3:i1ee");
}

#[test]
fn encode_into_appends() {
    let mut out = "xy".as_bytes().to_vec();
    integer(5).encode_into(&mut out);
    assert_eq!(text(out), "xyi5e");
}

#[test]
fn byte_order_comparison() {
    assert!(bytes_less("a".as_bytes(), "b".as_bytes()));
    assert!(bytes_less("a".as_bytes(), "ab".as_bytes()));
    assert!(bytes_less("B".as_bytes(), "a".as_bytes()));
    assert!(bytes_less("".as_bytes(), "a".as_bytes()));
    assert!(!bytes_less("ab".as_bytes(), "a".as_bytes()));
    assert!(!bytes_less("a".as_bytes(), "a".as_bytes()));
    assert!(!bytes_less("".as_bytes(), "".as_bytes()));
}

#[test]
fn dictionary_of_copied_dictionaries() {
    let sut1 = sample_dict();
    let mut sut2 = Dict::new();
    sut2.insert("k1".as_bytes().to_vec(), BencodeValue::Dictionary(sut1.clone()));
    sut2.insert("k2".as_bytes().to_vec(), BencodeValue::Dictionary(sut1));
    assert_eq!(
        text(sut2.encode()),
        "d2:k1d5:name15:value5:name2i50ee2:k2d5:name15:value5:name2i50eee"
    );
}

#[test]
fn duplicate_is_a_deep_copy() {
    let original = BencodeValue::List(vec![bytes("x"), BencodeValue::Dictionary(sample_dict())]);
    let copy = original.duplicate();
    assert_eq!(copy, original);
    assert_eq!(copy.encode(), original.encode());
    let mut d = sample_dict();
    let before = d.duplicate();
    d.insert("name3".as_bytes().to_vec(), integer(1));
    assert_eq!(text(before.encode()), "d5:name15:value5:name2i50ee");
    assert_eq!(text(d.encode()), "d5:name15:value5:name2i50e5:name3i1ee");
}
