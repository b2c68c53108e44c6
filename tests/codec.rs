use torrentinfo::{decode, encode, Error, Value};

fn bytes(s: &str) -> Value {
    Value::Bytes(s.as_bytes().to_vec())
}

#[test]
fn decodes_each_kind() {
    assert!(matches!(decode(b"i42e"), Ok(Value::Int(42))));
    assert!(matches!(decode(b"i-7e"), Ok(Value::Int(-7))));
    assert!(matches!(decode(b"i0e"), Ok(Value::Int(0))));
    match decode(b"4:spam") {
        Ok(Value::Bytes(b)) => assert_eq!(b, b"spam".to_vec()),
        _ => panic!("expected a byte string"),
    }
    match decode(b"l4:spami3ee") {
        Ok(Value::List(l)) => assert_eq!(l.len(), 2),
        _ => panic!("expected a list"),
    }
    match decode(b"d3:cow3:moo4:spam4:eggse") {
        Ok(Value::Dict(d)) => {
            assert_eq!(d.len(), 2);
            assert_eq!(d[0].0, b"cow".to_vec());
        }
        _ => panic!("expected a dictionary"),
    }
}

#[test]
fn canonical_input_round_trips() {
    let inputs: Vec<&[u8]> = vec![
        b"i0e",
        b"i-9223372036854775808e",
        b"i9223372036854775807e",
        b"0:",
        b"le",
        b"de",
        b"d1:ai1e1:bl1:x1:yee",
        b"d8:announce22:http://example.com/ann4:infod6:lengthi100e4:name8:test.txt12:piece lengthi16384e6:pieces20:AAAAAAAAAAAAAAAAAAAAee",
    ];
    for input in inputs {
        let v = decode(input).unwrap();
        assert_eq!(encode(&v), input.to_vec());
    }
}

#[test]
fn encoder_sorts_keys() {
    let v = decode(b"d1:bi1e1:ai2ee").unwrap();
    let once = encode(&v);
    assert_eq!(once, b"d1:ai2e1:bi1ee".to_vec());
    let twice = encode(&decode(&once).unwrap());
    assert_eq!(twice, once);
}

#[test]
fn encoder_sorts_nested_keys_by_raw_bytes() {
    let inner = Value::Dict(vec![
        (b"zz".to_vec(), Value::Int(1)),
        (b"z".to_vec(), Value::Int(2)),
        (vec![0xff], Value::Int(3)),
        (b"A".to_vec(), Value::Int(4)),
    ]);
    let v = Value::List(vec![inner, bytes("x")]);
    assert_eq!(
        encode(&v),
        b"ld1:Ai4e1:zi2e2:zzi1e1:\xffi3ee1:xe".to_vec()
    );
}

#[test]
fn encodes_integers_and_lengths_exactly() {
    assert_eq!(encode(&Value::Int(-42)), b"i-42e".to_vec());
    assert_eq!(encode(&Value::Int(i64::MIN)), b"i-9223372036854775808e".to_vec());
    assert_eq!(encode(&bytes("")), b"0:".to_vec());
    assert_eq!(encode(&bytes("0123456789")), b"10:0123456789".to_vec());
}

#[test]
fn malformed_input_is_a_structural_error() {
    let inputs: Vec<&[u8]> = vec![
        b"",
        b"d8:announce",
        b"5:abc",
        b"i12",
        b"i-0e",
        b"i03e",
        b"ie",
        b"i9223372036854775808e",
        b"03:abc",
        b"l",
        b"d3:abce",
        b"di1ei2ee",
        b"d1:ai1e1:ai2ee",
        b"i1ei2e",
        b"x",
    ];
    for input in inputs {
        assert_eq!(decode(input).err(), Some(Error::StructuralError));
    }
}
