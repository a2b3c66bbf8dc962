use bencode_zero::encoder::Encoder;
use bencode_zero::Error;

#[test]
fn unsorted_dict_matches_sorted_dict() {
    let mut unsorted = Encoder::new();
    let built = unsorted.emit_unsorted_dict(|d| {
        d.emit_pair(b"b", |v| v.emit_int(2))?;
        d.emit_pair(b"a", |v| v.emit_int(1))?;
        d.emit_pair(b"c", |v| v.emit_int(3))
    });
    assert_eq!(built, Ok(()));

    let mut sorted = Encoder::new();
    let built = sorted.emit_dict(|mut d| {
        d.emit_pair(b"a", |v| v.emit_int(1))?;
        d.emit_pair(b"b", |v| v.emit_int(2))?;
        d.emit_pair(b"c", |v| v.emit_int(3))
    });
    assert_eq!(built, Ok(()));

    let unsorted = unsorted.get_output().unwrap();
    assert_eq!(unsorted, b"d1:ai1e1:bi2e1:ci3ee".to_vec());
    assert_eq!(unsorted, sorted.get_output().unwrap());
}

#[test]
fn unsorted_dict_orders_keys_by_bytes() {
    let mut encoder = Encoder::new();
    let built = encoder.emit_unsorted_dict(|d| {
        d.emit_pair(b"ab", |v| v.emit_int(3))?;
        d.emit_pair(b"b", |v| v.emit_int(4))?;
        d.emit_pair(b"", |v| v.emit_int(1))?;
        d.emit_pair(b"a", |v| v.emit_int(2))?;
        d.emit_pair(&[0xff], |v| v.emit_int(6))?;
        d.emit_pair(b"ba", |v| v.emit_int(5))
    });
    assert_eq!(built, Ok(()));
    assert_eq!(
        encoder.get_output(),
        Ok(b"d0:i1e1:ai2e2:abi3e1:bi4e2:bai5e1:\xffi6ee".to_vec())
    );
}

#[test]
fn unsorted_dict_takes_every_kind_of_value() {
    let mut encoder = Encoder::new();
    let built = encoder.emit_unsorted_dict(|d| {
        d.emit_pair(b"s", |v| v.emit_str("x"))?;
        d.emit_pair(b"l", |v| v.emit_list(|e| e.emit_int(1)))?;
        d.emit_pair(b"u", |v| v.emit_unsorted_dict(|d| d.emit_pair(b"k", |v| v.emit_int(0))))?;
        d.emit_pair(b"d", |v| v.emit_dict(|mut d| d.emit_pair(b"k", |v| v.emit_bytes(b"yz"))))?;
        d.emit_pair(b"b", |v| v.emit_bytes(b""))
    });
    assert_eq!(built, Ok(()));
    assert_eq!(
        encoder.get_output(),
        Ok(b"d1:b0:1:dd1:k2:yze1:lli1ee1:s1:x1:ud1:ki0eee".to_vec())
    );
}

#[test]
fn duplicate_key_fails_the_whole_dictionary() {
    let mut encoder = Encoder::new();
    let mut second = Ok(());
    let mut third = Ok(());
    let mut ran = false;
    let built = encoder.emit_unsorted_dict(|d| {
        d.emit_pair(b"a", |v| v.emit_int(1))?;
        second = d.emit_pair(b"a", |v| {
            ran = true;
            v.emit_int(2)
        });
        third = d.emit_pair(b"b", |v| v.emit_int(3));
        second
    });
    assert_eq!(second, Err(Error::DuplicateKey));
    assert!(!ran);
    assert_eq!(third, Err(Error::DuplicateKey));
    assert_eq!(built, Err(Error::DuplicateKey));
    assert_eq!(encoder.emit_int(1), Err(Error::DuplicateKey));
    assert_eq!(encoder.get_output(), Err(Error::DuplicateKey));
}

#[test]
fn swallowed_staging_error_still_fails_the_dictionary() {
    let mut encoder = Encoder::new();
    let built = encoder.emit_unsorted_dict(|d| {
        d.emit_pair(b"a", |v| v.emit_int(1))?;
        let _ = d.emit_pair(b"a", |v| v.emit_int(2));
        Ok(())
    });
    assert_eq!(built, Err(Error::DuplicateKey));
    assert_eq!(encoder.get_output(), Err(Error::DuplicateKey));
}

#[test]
fn staged_pair_without_a_value_fails() {
    let mut encoder = Encoder::new();
    let built = encoder.emit_unsorted_dict(|d| d.emit_pair(b"a", |_| Ok(())));
    assert_eq!(built, Err(Error::NoValueEmitted));
    assert_eq!(encoder.get_output(), Err(Error::NoValueEmitted));
}

#[test]
fn staged_pair_reports_the_failure_of_its_callback() {
    let mut encoder = Encoder::new();
    let built = encoder.emit_unsorted_dict(|d| d.emit_pair(b"a", |_| Err(Error::UnexpectedToken)));
    assert_eq!(built, Err(Error::UnexpectedToken));
}

#[test]
fn staged_pair_with_a_failing_value_fails() {
    let mut encoder = Encoder::new().with_max_depth(1);
    let mut ran = false;
    let built = encoder.emit_unsorted_dict(|d| {
        d.emit_pair(b"a", |v| v.emit_list(|_| Ok(())))?;
        ran = true;
        d.emit_pair(b"b", |v| v.emit_int(1))
    });
    assert!(!ran);
    assert_eq!(built, Err(Error::DepthExceeded));
    assert_eq!(encoder.get_output(), Err(Error::DepthExceeded));
}

#[test]
fn staged_pair_with_a_swallowed_value_error_fails() {
    let mut encoder = Encoder::new().with_max_depth(2);
    let built = encoder.emit_unsorted_dict(|d| {
        d.emit_pair(b"a", |v| {
            v.emit_list(|e| {
                let _ = e.emit_list(|_| Ok(()));
                Ok(())
            })
        })
    });
    assert_eq!(built, Err(Error::DepthExceeded));
}

#[test]
fn sorted_pair_without_a_value_keeps_earlier_pairs() {
    let mut encoder = Encoder::new();
    let mut first = Err(Error::UnexpectedToken);
    let mut second = Ok(());
    let mut third = Ok(());
    let built = encoder.emit_dict(|mut d| {
        first = d.emit_pair(b"a", |v| v.emit_int(1));
        second = d.emit_pair(b"b", |_| Ok(()));
        third = d.emit_pair(b"c", |v| v.emit_int(3));
        second
    });
    assert_eq!(first, Ok(()));
    assert_eq!(second, Err(Error::NoValueEmitted));
    assert_eq!(third, Err(Error::NoValueEmitted));
    assert_eq!(built, Err(Error::NoValueEmitted));
    assert_eq!(encoder.get_output(), Err(Error::NoValueEmitted));
}

#[test]
fn sorted_pair_reports_the_failure_of_its_callback() {
    let mut encoder = Encoder::new();
    let built =
        encoder.emit_dict(|mut d| d.emit_pair(b"a", |v| {
            v.emit_int(1)?;
            Err(Error::UnexpectedToken)
        }));
    assert_eq!(built, Err(Error::UnexpectedToken));
    assert_eq!(encoder.get_output(), Err(Error::UnexpectedToken));
}

#[test]
fn sorted_pair_with_failing_value_reports_the_value_error() {
    let mut encoder = Encoder::new().with_max_depth(1);
    let built = encoder.emit_dict(|mut d| {
        d.emit_pair(b"a", |v| v.emit_int(1))?;
        d.emit_pair(b"b", |v| v.emit_list(|_| Ok(())))
    });
    assert_eq!(built, Err(Error::DepthExceeded));
}

#[test]
fn sorted_dict_does_not_check_the_key_order() {
    let mut encoder = Encoder::new();
    let built = encoder.emit_dict(|mut d| {
        d.emit_pair(b"b", |v| v.emit_int(2))?;
        d.emit_pair(b"a", |v| v.emit_int(1))
    });
    assert_eq!(built, Ok(()));
    assert_eq!(encoder.get_output(), Ok(b"d1:bi2e1:ai1ee".to_vec()));
}

#[test]
fn sorted_dict_with_one_pair() {
    let mut encoder = Encoder::new();
    let built = encoder.emit_dict(|mut d| d.emit_pair(b"only", |v| v.emit_str("one")));
    assert_eq!(built, Ok(()));
    assert_eq!(encoder.get_output(), Ok(b"d4:only3:onee".to_vec()));
}

#[test]
fn sorted_dict_with_nested_dict_values() {
    let mut encoder = Encoder::new();
    let built = encoder.emit_dict(|mut d| {
        d.emit_pair(b"a", |v| v.emit_dict(|mut d| d.emit_pair(b"x", |v| v.emit_int(-1))))?;
        d.emit_pair(b"b", |v| v.emit_unsorted_dict(|d| {
            d.emit_pair(b"z", |v| v.emit_int(26))?;
            d.emit_pair(b"y", |v| v.emit_int(25))
        }))
    });
    assert_eq!(built, Ok(()));
    assert_eq!(encoder.get_output(), Ok(b"d1:ad1:xi-1ee1:bd1:yi25e1:zi26eee".to_vec()));
}

#[test]
fn failed_callback_of_a_sorted_dict_is_latched() {
    let mut encoder = Encoder::new();
    let built = encoder.emit_dict(|mut d| {
        d.emit_pair(b"a", |v| v.emit_int(1))?;
        Err(Error::DuplicateKey)
    });
    assert_eq!(built, Err(Error::DuplicateKey));
    assert_eq!(encoder.emit_str("x"), Err(Error::DuplicateKey));
}

#[test]
fn staging_orders_keys_like_an_ordered_map() {
    // keys of different lengths in a scrambled order
    let mut keys: Vec<Vec<u8>> = Vec::new();
    let mut seed: u32 = 12345;
    for _ in 0..300 {
        seed = seed.wrapping_mul(1103515245).wrapping_add(12345);
        let len = (seed >> 16) % 4;
        let mut key = Vec::new();
        for _ in 0..len {
            seed = seed.wrapping_mul(1103515245).wrapping_add(12345);
            key.push((seed >> 16) as u8);
        }
        keys.push(key);
    }

    let mut expected = std::collections::BTreeMap::new();
    let mut encoder = Encoder::new();
    let built = encoder.emit_unsorted_dict(|d| {
        for (i, key) in keys.iter().enumerate() {
            if expected.contains_key(key) {
                continue;
            }
            d.emit_pair(key, |v| v.emit_int(i))?;
            expected.insert(key.clone(), i);
        }
        Ok(())
    });

    assert!(expected.len() > 100);
    assert_eq!(built, Ok(()));
    let mut bytes = b"d".to_vec();
    for (key, value) in expected {
        bytes.extend_from_slice(key.len().to_string().as_bytes());
        bytes.push(b':');
        bytes.extend_from_slice(&key);
        bytes.extend_from_slice(format!("i{}e", value).as_bytes());
    }
    bytes.push(b'e');
    assert_eq!(encoder.get_output(), Ok(bytes));
}

#[test]
fn staging_many_distinct_keys_in_scrambled_order() {
    let count: u32 = 500;
    let mut encoder = Encoder::new();
    let built = encoder.emit_unsorted_dict(|d| {
        // 7919 is prime to 500, so every number below 500 comes up once
        for i in 0..count {
            let n = (i * 7919) % count;
            d.emit_pair(format!("{:03}", n).as_bytes(), |v| v.emit_int(n))?;
        }
        Ok(())
    });
    assert_eq!(built, Ok(()));
    let mut bytes = b"d".to_vec();
    for n in 0..count {
        bytes.extend_from_slice(format!("3:{:03}i{}e", n, n).as_bytes());
    }
    bytes.push(b'e');
    assert_eq!(encoder.get_output(), Ok(bytes));
}
