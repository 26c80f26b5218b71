use clove_core::bencode::{
    decode, decode_prefix, decode_with_entry, encode, encode_into, raw_entry, Dict, ErrorKind,
    Value, MAX_DEPTH,
};

fn bytes(s: &str) -> Value {
    Value::Bytes(s.as_bytes().to_vec())
}

#[test]
fn bencode_round_trips() {
    let cases: &[&[u8]] = &[
        b"i0e",
        b"i-1e",
        b"i9223372036854775807e",
        b"i-9223372036854775808e",
        b"0:",
        b"4:spam",
        b"le",
        b"de",
        b"l4:spami42ee",
        b"d3:bar4:spam3:fooi42ee",
        b"d1:ad1:bl1:c1:deee",
    ];
    for case in cases {
        let v = decode(case).unwrap();
        assert_eq!(encode(&v).as_slice(), *case, "case {case:?}");
    }
}

#[test]
fn rejects_malformed_integers() {
    for case in [
        &b"ie"[..],
        b"i-e",
        b"i-0e",
        b"i01e",
        b"i-01e",
        b"i1x2e",
        b"i9223372036854775808e",
        b"i-9223372036854775809e",
        b"i42",
    ] {
        assert!(decode(case).is_err(), "accepted {case:?}");
    }
}

#[test]
fn rejects_malformed_strings() {
    for case in [&b"5:spam"[..], b"01:a", b":a", b"4x:spam", b"1:"] {
        assert!(decode(case).is_err(), "accepted {case:?}");
    }
    // A length prefix wildly larger than the input must fail without
    // allocating anything of that size.
    assert_eq!(decode(b"99999999999999999999999:x").unwrap_err().kind, ErrorKind::BadLength);
    assert_eq!(decode(b"4294967295:x").unwrap_err().kind, ErrorKind::Truncated);
}

#[test]
fn rejects_structure_violations() {
    assert_eq!(decode(b"").unwrap_err().kind, ErrorKind::Truncated);
    assert_eq!(decode(b"x").unwrap_err().kind, ErrorKind::BadValueStart);
    assert_eq!(decode(b"i1ei2e").unwrap_err().kind, ErrorKind::TrailingData);
    assert_eq!(decode(b"l4:spam").unwrap_err().kind, ErrorKind::Truncated);
    assert_eq!(decode(b"di1e1:ae").unwrap_err().kind, ErrorKind::BadKey);
    assert_eq!(
        decode(b"d1:ai1e1:ai2ee").unwrap_err().kind,
        ErrorKind::BadKey,
        "duplicate keys"
    );
}

#[test]
fn tolerates_unsorted_keys_but_encodes_canonically() {
    let v = decode(b"d1:bi2e1:ai1ee").unwrap();
    assert_eq!(encode(&v), b"d1:ai1e1:bi2ee");
}

#[test]
fn enforces_depth_limit() {
    let depth = usize::try_from(MAX_DEPTH).unwrap();
    let evil = vec![b'l'; depth + 1];
    assert_eq!(decode(&evil).unwrap_err().kind, ErrorKind::TooDeep);

    // Exactly at the limit is fine.
    let mut ok = vec![b'l'; depth];
    ok.extend(vec![b'e'; depth]);
    assert!(decode(&ok).is_ok());
}

#[test]
fn raw_entry_returns_exact_spans() {
    let input = b"d4:infod4:name1:x6:lengthi5ee5:otheri1ee";
    let range = raw_entry(input, b"info").unwrap().unwrap();
    assert_eq!(&input[range], b"d4:name1:x6:lengthi5ee");
    assert_eq!(raw_entry(input, b"missing").unwrap(), None);
    assert_eq!(raw_entry(b"i42e", b"info").unwrap(), None);
    assert!(raw_entry(b"d4:info", b"info").is_err());
}

#[test]
fn value_accessors() {
    let v = decode(b"d3:key5:value3:numi7e4:listl1:aee").unwrap();
    assert_eq!(v.get(b"key").and_then(Value::as_str), Some("value"));
    assert_eq!(v.get(b"num").and_then(Value::as_int), Some(7));
    assert_eq!(v.get(b"list").and_then(Value::as_list).map(|l| l.len()), Some(1));
    assert_eq!(v.get(b"absent"), None);
    assert_eq!(bytes("x").as_int(), None);
}

#[test]
fn a_value_in_front_leaves_the_rest() {
    let (v, used) = decode_prefix(b"i7exyz").unwrap();
    assert_eq!(v, Value::Int(7));
    assert_eq!(used, 3);
}

#[test]
fn decoding_inverts_encoding() {
    let mut inner = Dict::new();
    assert!(inner.insert(b"z".to_vec(), Value::Int(-5)).is_none());
    assert!(inner.insert(b"a".to_vec(), bytes("caf\u{e9}")).is_none());
    assert_eq!(inner.insert(b"z".to_vec(), Value::Int(6)), Some(Value::Int(-5)));
    let v = Value::List(vec![Value::Dict(inner), bytes(""), Value::Int(i64::MIN)]);
    let encoded = encode(&v);
    assert_eq!(decode(&encoded).unwrap(), v);
    let mut after = b"x".to_vec();
    encode_into(&v, &mut after);
    assert_eq!(&after[1..], &encoded[..]);
}

#[test]
fn a_dict_is_sorted_by_key() {
    let v = decode(b"d1:bi2e2:aai3e1:ai1ee").unwrap();
    let d = v.as_dict().unwrap();
    assert_eq!(d.len(), 3);
    assert_eq!(d.key_at(0), b"a");
    assert_eq!(d.key_at(1), b"aa");
    assert_eq!(d.key_at(2), b"b");
    assert_eq!(d.value_at(1), &Value::Int(3));
    assert!(d.contains_key(b"b"));
    assert!(!d.contains_key(b"c"));
    assert_eq!(d.get(b"a"), Some(&Value::Int(1)));
}

#[test]
fn the_entry_comes_with_the_value() {
    let input = b"d4:infod1:xi1ee1:zi0ee";
    let (v, span) = decode_with_entry(input, b"info").unwrap();
    assert_eq!(v.get(b"z"), Some(&Value::Int(0)));
    assert_eq!(&input[span.unwrap()], b"d1:xi1ee");
}

#[test]
fn errors_name_the_place_and_the_fault() {
    let e = decode(b"d1:ai1e1:ai2ee").unwrap_err();
    assert!(e.message().contains(&e.offset.to_string()), "{}", e.message());
    let e = decode(b"li01ee").unwrap_err();
    assert_eq!(e.kind, ErrorKind::BadInt);
    assert!(e.message().starts_with("bencode"), "{}", e.message());
}

#[test]
fn bytes_that_are_not_text_are_no_text() {
    assert_eq!(Value::Bytes(vec![0x63, 0xC3, 0xA9]).as_str(), Some("c\u{E9}"));
    assert_eq!(Value::Bytes(vec![0x63, 0xC3]).as_str(), None);
    assert_eq!(Value::Bytes(vec![0xFF]).as_bytes(), Some(&[0xFFu8][..]));
}

#[test]
fn an_entry_decodes_on_its_own() {
    let input = b"d1:ali1ei2ee4:infod1:xi1e1:yl0:ee1:z3:abce";
    let whole = decode(input).unwrap();
    for key in [&b"a"[..], b"info", b"z"] {
        let range = raw_entry(input, key).unwrap().unwrap();
        assert_eq!(&decode(&input[range.clone()]).unwrap(), whole.get(key).unwrap());
        assert!(input[..range.start].ends_with(key), "right after the key");
    }
    // A key of a nested dictionary is not a key of the top level.
    assert_eq!(raw_entry(input, b"x").unwrap(), None);
    assert_eq!(raw_entry(b"d1:a", b"a").unwrap_err(), decode(b"d1:a").unwrap_err());
}

#[test]
fn no_prefix_of_a_value_is_a_value() {
    let input = b"d1:ali1ei2ee4:infod1:xi1eee";
    assert!(decode(input).is_ok());
    for n in 0..input.len() {
        assert!(decode(&input[..n]).is_err(), "prefix of {n}");
    }
}

#[test]
fn a_clone_is_the_same_value() {
    let v = decode(b"d1:ali1e2:xye1:bd1:ci-7eee").unwrap();
    assert_eq!(v.clone(), v);
    let d = v.as_dict().unwrap();
    assert_eq!(&d.clone(), d);
}
