use bencode_zero::encoder::{Encoder, SingleItemEncoder};
use bencode_zero::Error;

/// A value of the format, as a reader sees it.
#[derive(Debug, Clone, PartialEq, Eq)]
enum Value {
    Int(i64),
    Bytes(Vec<u8>),
    List(Vec<Value>),
    Dict(Vec<(Vec<u8>, Value)>),
}

/// Reads one value from the front of `bytes`; returns it and what follows.
/// Dictionary keys must be strictly increasing.
fn read(bytes: &[u8]) -> Option<(Value, &[u8])> {
    match *bytes.first()? {
        b'i' => {
            let end = bytes.iter().position(|b| *b == b'e')?;
            let text = std::str::from_utf8(&bytes[1..end]).ok()?;
            let value: i64 = text.parse().ok()?;
            if value.to_string() != text {
                return None;
            }
            Some((Value::Int(value), &bytes[end + 1..]))
        }
        b'l' => {
            let mut rest = &bytes[1..];
            let mut items = Vec::new();
            while *rest.first()? != b'e' {
                let (item, after) = read(rest)?;
                items.push(item);
                rest = after;
            }
            Some((Value::List(items), &rest[1..]))
        }
        b'd' => {
            let mut rest = &bytes[1..];
            let mut pairs: Vec<(Vec<u8>, Value)> = Vec::new();
            while *rest.first()? != b'e' {
                let (key, after) = read(rest)?;
                let key = match key {
                    Value::Bytes(key) => key,
                    _ => return None,
                };
                if let Some((last, _)) = pairs.last() {
                    if *last >= key {
                        return None;
                    }
                }
                let (value, after) = read(after)?;
                pairs.push((key, value));
                rest = after;
            }
            Some((Value::Dict(pairs), &rest[1..]))
        }
        b'0'..=b'9' => {
            let colon = bytes.iter().position(|b| *b == b':')?;
            let text = std::str::from_utf8(&bytes[..colon]).ok()?;
            let len: usize = text.parse().ok()?;
            if len.to_string() != text {
                return None;
            }
            let rest = &bytes[colon + 1..];
            if rest.len() < len {
                return None;
            }
            Some((Value::Bytes(rest[..len].to_vec()), &rest[len..]))
        }
        _ => None,
    }
}

/// Reads `bytes` as exactly one value.
fn decode(bytes: &[u8]) -> Option<Value> {
    match read(bytes)? {
        (value, rest) if rest.is_empty() => Some(value),
        _ => None,
    }
}

fn write_item(encoder: &mut Encoder, value: &Value, staged: bool) -> Result<(), Error> {
    match value {
        Value::Int(i) => encoder.emit_int(*i),
        Value::Bytes(b) => encoder.emit_bytes(b),
        Value::List(items) => encoder.emit_list(|e| {
            for item in items {
                write_item(e, item, staged)?;
            }
            Ok(())
        }),
        Value::Dict(pairs) => {
            if staged {
                encoder.emit_unsorted_dict(|d| {
                    // staged in reverse, to be put in order by the encoder
                    for (key, value) in pairs.iter().rev() {
                        d.emit_pair(key, |v| write_single(v, value, staged))?;
                    }
                    Ok(())
                })
            } else {
                encoder.emit_dict(|mut d| {
                    for (key, value) in pairs {
                        d.emit_pair(key, |v| write_single(v, value, staged))?;
                    }
                    Ok(())
                })
            }
        }
    }
}

fn write_single(single: SingleItemEncoder, value: &Value, staged: bool) -> Result<(), Error> {
    match value {
        Value::Int(i) => single.emit_int(*i),
        Value::Bytes(b) => single.emit_bytes(b),
        Value::List(_) => single.emit_list(|e| {
            if let Value::List(items) = value {
                for item in items {
                    write_item(e, item, staged)?;
                }
            }
            Ok(())
        }),
        Value::Dict(pairs) => {
            if staged {
                single.emit_unsorted_dict(|d| {
                    for (key, value) in pairs.iter().rev() {
                        d.emit_pair(key, |v| write_single(v, value, staged))?;
                    }
                    Ok(())
                })
            } else {
                single.emit_dict(|mut d| {
                    for (key, value) in pairs {
                        d.emit_pair(key, |v| write_single(v, value, staged))?;
                    }
                    Ok(())
                })
            }
        }
    }
}

fn samples() -> Vec<Value> {
    let bytes = |s: &str| Value::Bytes(s.as_bytes().to_vec());
    let key = |s: &str| s.as_bytes().to_vec();
    vec![
        Value::Int(0),
        Value::Int(-1),
        Value::Int(i64::MIN),
        Value::Int(i64::MAX),
        bytes(""),
        bytes("i1e"),
        Value::Bytes(vec![0, 1, 2, 255, b':', b'e']),
        Value::Bytes(vec![b'x'; 1234]),
        Value::List(vec![]),
        Value::Dict(vec![]),
        Value::List(vec![Value::Int(1), bytes("two"), Value::List(vec![Value::Int(3)])]),
        Value::Dict(vec![
            (key("bar"), Value::Int(25)),
            (key("foo"), Value::List(vec![bytes("baz"), bytes("qux")])),
        ]),
        Value::Dict(vec![
            (key(""), Value::Dict(vec![])),
            (key("a"), Value::Dict(vec![(key("a"), Value::Dict(vec![(key("a"), Value::Int(1))]))])),
            (
                key("aa"),
                Value::List(vec![Value::Dict(vec![(key("k"), bytes("v"))]), Value::List(vec![])]),
            ),
            (key("b"), bytes("e")),
        ]),
    ]
}

#[test]
fn sorted_output_reads_back_as_the_value() {
    for value in samples() {
        let mut encoder = Encoder::new();
        assert_eq!(write_item(&mut encoder, &value, false), Ok(()));
        let bytes = encoder.get_output().unwrap();
        assert_eq!(decode(&bytes), Some(value));
    }
}

#[test]
fn staged_output_reads_back_as_the_value() {
    for value in samples() {
        let mut encoder = Encoder::new();
        assert_eq!(write_item(&mut encoder, &value, true), Ok(()));
        let bytes = encoder.get_output().unwrap();
        assert_eq!(decode(&bytes), Some(value));
    }
}

#[test]
fn staged_and_sorted_output_are_the_same_bytes() {
    for value in samples() {
        let mut sorted = Encoder::new();
        assert_eq!(write_item(&mut sorted, &value, false), Ok(()));
        let mut staged = Encoder::new();
        assert_eq!(write_item(&mut staged, &value, true), Ok(()));
        assert_eq!(sorted.get_output(), staged.get_output());
    }
}

#[test]
fn every_finished_output_is_one_whole_value() {
    for value in samples() {
        let mut encoder = Encoder::new();
        assert_eq!(write_item(&mut encoder, &value, false), Ok(()));
        let bytes = encoder.get_output().unwrap();
        let (_, rest) = read(&bytes).unwrap();
        assert!(rest.is_empty());
        // no proper prefix of one value is a value
        for cut in 0..bytes.len() {
            assert_eq!(decode(&bytes[..cut]), None);
        }
    }
}
