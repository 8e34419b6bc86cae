use bittorrent::bencode::Value;
use bittorrent::decode::decode;
use bittorrent::encode::{encode, encode_raw};
use bittorrent::render::render;

fn decode_str(s: &str) -> Value {
    decode(&s.as_bytes().to_vec()).unwrap()
}

#[test]
fn test_display_bencode_values() {
    let bytes = "5:hello";
    assert_eq!("\"hello\"", render(&decode_str(bytes)));

    let number = "i42e";
    assert_eq!("42", render(&decode_str(number)));

    let list = "l5:helloi42ee";
    assert_eq!("[\"hello\",42]", render(&decode_str(list)));

    let dict = "d3:foo3:bar5:helloi52ee";
    assert_eq!(r#"{"foo":"bar","hello":52}"#, render(&decode_str(dict)));

    let empty_dict = "de";
    assert_eq!(r#"{}"#, render(&decode_str(empty_dict)));
}

#[test]
fn render_negative_and_nested() {
    assert_eq!("-42", render(&decode_str("i-42e")));
    assert_eq!("0", render(&decode_str("i0e")));
    assert_eq!("[]", render(&decode_str("le")));
    assert_eq!(
        r#"[{"a":[1,2]},""]"#,
        render(&decode_str("ld1:al i1ei2ee e0:e".replace(' ', "").as_str()))
    );
}

#[test]
fn render_sorts_dict_keys() {
    assert_eq!(
        r#"{"a":1,"b":2}"#,
        render(&decode_str("d1:bi2e1:ai1ee"))
    );
}

#[test]
fn render_invalid_utf8_is_lossy() {
    let v = decode(&vec![50, 58, 255, 254]).unwrap();
    assert_eq!("\"\u{fffd}\u{fffd}\"", render(&v));
}

#[test]
fn decode_structures() {
    assert_eq!(decode_str("4:spam"), Value::Bytes(b"spam".to_vec()));
    assert_eq!(decode_str("i-7e"), Value::Int(-7));
    assert_eq!(
        decode_str("l4:spami7ee"),
        Value::List(vec![Value::Bytes(b"spam".to_vec()), Value::Int(7)])
    );
    assert_eq!(
        decode_str("d3:cow3:mooe"),
        Value::Dict(vec![(b"cow".to_vec(), Value::Bytes(b"moo".to_vec()))])
    );
}

#[test]
fn decode_int_bounds() {
    assert_eq!(
        decode_str("i9223372036854775807e"),
        Value::Int(i64::MAX)
    );
    assert_eq!(
        decode_str("i-9223372036854775808e"),
        Value::Int(i64::MIN)
    );
    assert!(decode(&b"i9223372036854775808e".to_vec()).is_err());
    assert!(decode(&b"i-9223372036854775809e".to_vec()).is_err());
}

#[test]
fn decode_rejects_malformed() {
    // no content
    assert!(decode(&b"".to_vec()).is_err());
    // length prefix is non-numeric
    assert!(decode(&b"x:ab".to_vec()).is_err());
    // declared length exceeds remaining input
    assert!(decode(&b"5:hi".to_vec()).is_err());
    // missing colon
    assert!(decode(&b"5hello".to_vec()).is_err());
    // missing terminator
    assert!(decode(&b"i42".to_vec()).is_err());
    assert!(decode(&b"l5:hello".to_vec()).is_err());
    // malformed sign/digit sequences
    assert!(decode(&b"ie".to_vec()).is_err());
    assert!(decode(&b"i-e".to_vec()).is_err());
    assert!(decode(&b"i4x2e".to_vec()).is_err());
    // negative zero and superfluous leading zeros are rejected
    assert!(decode(&b"i-0e".to_vec()).is_err());
    assert!(decode(&b"i03e".to_vec()).is_err());
    assert!(decode(&b"i-012e".to_vec()).is_err());
    assert!(decode(&b"05:hello".to_vec()).is_err());
    // a dict key must be a byte string
    assert!(decode(&b"di1ei2ee".to_vec()).is_err());
    // trailing bytes after one value
    assert!(decode(&b"i42ei7e".to_vec()).is_err());
    // zero itself is fine
    assert!(decode(&b"i0e".to_vec()).is_ok());
    assert!(decode(&b"0:".to_vec()).is_ok());
}

#[test]
fn encode_is_canonical() {
    // dictionary entries are re-emitted in ascending key order
    let v = decode_str("d5:helloi52e3:foo3:bare");
    assert_eq!(encode(&v), b"d3:foo3:bar5:helloi52ee".to_vec());
    // stored-order re-encoding reproduces the source exactly
    assert_eq!(encode_raw(&v), b"d5:helloi52e3:foo3:bare".to_vec());
}

#[test]
fn encode_decode_round_trip() {
    // decoding, re-encoding and decoding again yields the first value
    // with dictionary key order normalized to ascending
    let sources: Vec<&[u8]> = vec![
        b"5:hello",
        b"i42e",
        b"i-42e",
        b"l5:helloi42ee",
        b"d3:foo3:bar5:helloi52ee",
        b"de",
        b"le",
        b"0:",
        b"d1:bl d1:di1ee e1:ai0ee",
    ];
    for src in sources {
        let cleaned: Vec<u8> = src.iter().cloned().filter(|b| *b != b' ').collect();
        let first = decode(&cleaned).unwrap();
        let re = encode(&first);
        let second = decode(&re).unwrap();
        // re-encoding the second value is a fixed point: canonical form
        assert_eq!(encode(&second), re);
        // for already-sorted sources the round trip is the identity
        if re == cleaned {
            assert_eq!(second, first);
        }
    }
    // explicit normalization example
    let first = decode(&b"d5:helloi52e3:foo3:bare".to_vec()).unwrap();
    let second = decode(&encode(&first)).unwrap();
    assert_eq!(
        second,
        Value::Dict(vec![
            (b"foo".to_vec(), Value::Bytes(b"bar".to_vec())),
            (b"hello".to_vec(), Value::Int(52)),
        ])
    );
}
