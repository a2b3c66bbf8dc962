use bencode_zero::encoder::Encoder;
use bencode_zero::Error;

#[test]
pub fn simple_encoding_works() {
    let mut encoder = Encoder::new();
    encoder
        .emit_dict(|mut e| {
            e.emit_pair(b"bar", |e| e.emit_int(25))?;
            e.emit_pair(b"foo", |e| {
                e.emit_list(|e| {
                    e.emit_str("baz")?;
                    e.emit_str("qux")
                })
            })
        })
        .expect("Encoding shouldn't fail");
    assert_eq!(
        &encoder
            .get_output()
            .expect("Complete object should have been written"),
        &b"d3:bari25e3:fool3:baz3:quxee"
    );
}

#[test]
fn empty_list_is_le() {
    let mut encoder = Encoder::new();
    assert_eq!(encoder.emit_list(|_| Ok(())), Ok(()));
    assert_eq!(encoder.get_output(), Ok(b"le".to_vec()));
}

#[test]
fn empty_sorted_dict_is_de() {
    let mut encoder = Encoder::new();
    assert_eq!(encoder.emit_dict(|_| Ok(())), Ok(()));
    assert_eq!(encoder.get_output(), Ok(b"de".to_vec()));
}

#[test]
fn empty_unsorted_dict_is_de() {
    let mut encoder = Encoder::new();
    assert_eq!(encoder.emit_unsorted_dict(|_| Ok(())), Ok(()));
    assert_eq!(encoder.get_output(), Ok(b"de".to_vec()));
}

#[test]
fn default_encoder_is_a_new_encoder() {
    let mut encoder = Encoder::default();
    assert_eq!(encoder.emit_int(7), Ok(()));
    assert_eq!(encoder.get_output(), Ok(b"i7e".to_vec()));
}

#[test]
fn root_integer() {
    let mut encoder = Encoder::new();
    assert_eq!(encoder.emit_int(-42i64), Ok(()));
    assert_eq!(encoder.get_output(), Ok(b"i-42e".to_vec()));
}

#[test]
fn root_integer_by_reference() {
    let value: u16 = 65535;
    let mut encoder = Encoder::new();
    assert_eq!(encoder.emit_int(&value), Ok(()));
    assert_eq!(encoder.get_output(), Ok(b"i65535e".to_vec()));
}

#[test]
fn root_string_is_length_prefixed() {
    let mut encoder = Encoder::new();
    assert_eq!(encoder.emit_str("spam"), Ok(()));
    assert_eq!(encoder.get_output(), Ok(b"4:spam".to_vec()));
}

#[test]
fn string_length_counts_bytes_not_characters() {
    let mut encoder = Encoder::new();
    assert_eq!(encoder.emit_str("h\u{e9}llo"), Ok(()));
    assert_eq!(encoder.get_output(), Ok(b"6:h\xc3\xa9llo".to_vec()));
}

#[test]
fn empty_string_is_zero_colon() {
    let mut encoder = Encoder::new();
    assert_eq!(encoder.emit_str(""), Ok(()));
    assert_eq!(encoder.get_output(), Ok(b"0:".to_vec()));
}

#[test]
fn bytes_with_two_digit_length() {
    let mut encoder = Encoder::new();
    assert_eq!(encoder.emit_bytes(b"hello world"), Ok(()));
    assert_eq!(encoder.get_output(), Ok(b"11:hello world".to_vec()));
}

#[test]
fn bytes_may_hold_any_byte() {
    let mut encoder = Encoder::new();
    assert_eq!(encoder.emit_bytes(&[0u8, 255, b'e', b':']), Ok(()));
    assert_eq!(encoder.get_output(), Ok(vec![b'4', b':', 0, 255, b'e', b':']));
}

#[test]
fn list_of_integers() {
    let mut encoder = Encoder::new();
    let built = encoder.emit_list(|e| {
        e.emit_int(1)?;
        e.emit_int(2)?;
        e.emit_int(3)
    });
    assert_eq!(built, Ok(()));
    assert_eq!(encoder.get_output(), Ok(b"li1ei2ei3ee".to_vec()));
}

#[test]
fn nested_containers() {
    let mut encoder = Encoder::new();
    let built = encoder.emit_list(|e| {
        e.emit_list(|e| e.emit_dict(|mut d| d.emit_pair(b"k", |v| v.emit_bytes(b"v"))))?;
        e.emit_dict(|_| Ok(()))?;
        e.emit_str("x")
    });
    assert_eq!(built, Ok(()));
    assert_eq!(encoder.get_output(), Ok(b"lld1:k1:veede1:xe".to_vec()));
}

#[test]
fn finalize_without_a_value_is_incomplete() {
    let encoder = Encoder::new();
    assert_eq!(encoder.get_output(), Err(Error::IncompleteAtFinalize));
}

#[test]
fn finalize_with_one_closed_value_succeeds() {
    let mut encoder = Encoder::new();
    assert_eq!(encoder.emit_list(|e| e.emit_list(|_| Ok(()))), Ok(()));
    assert_eq!(encoder.get_output(), Ok(b"llee".to_vec()));
}

#[test]
fn second_root_value_is_refused() {
    let mut encoder = Encoder::new();
    assert_eq!(encoder.emit_int(1), Ok(()));
    assert_eq!(encoder.emit_int(2), Err(Error::ExtraTopLevelValue));
    assert_eq!(encoder.get_output(), Err(Error::ExtraTopLevelValue));
}

#[test]
fn second_root_container_is_refused() {
    let mut encoder = Encoder::new();
    assert_eq!(encoder.emit_str("a"), Ok(()));
    let mut ran = false;
    assert_eq!(
        encoder.emit_list(|_| {
            ran = true;
            Ok(())
        }),
        Err(Error::ExtraTopLevelValue)
    );
    assert!(!ran);
}

#[test]
fn latched_error_answers_every_later_operation() {
    let mut encoder = Encoder::new().with_max_depth(0);
    assert_eq!(encoder.emit_list(|_| Ok(())), Err(Error::DepthExceeded));
    assert_eq!(encoder.emit_int(1), Err(Error::DepthExceeded));
    assert_eq!(encoder.emit_str("a"), Err(Error::DepthExceeded));
    assert_eq!(encoder.emit_bytes(b"a"), Err(Error::DepthExceeded));
    assert_eq!(encoder.emit_dict(|_| Ok(())), Err(Error::DepthExceeded));
    assert_eq!(encoder.emit_unsorted_dict(|_| Ok(())), Err(Error::DepthExceeded));
    assert_eq!(encoder.emit_list(|_| Ok(())), Err(Error::DepthExceeded));
    assert_eq!(encoder.get_output(), Err(Error::DepthExceeded));
}

#[test]
fn error_inside_a_list_stops_everything_after_it() {
    let mut encoder = Encoder::new().with_max_depth(1);
    let mut later = Ok(());
    let built = encoder.emit_list(|e| {
        e.emit_int(1)?;
        let inner = e.emit_list(|_| Ok(()));
        later = e.emit_int(2);
        inner
    });
    assert_eq!(built, Err(Error::DepthExceeded));
    assert_eq!(later, Err(Error::DepthExceeded));
    assert_eq!(encoder.emit_int(3), Err(Error::DepthExceeded));
    assert_eq!(encoder.get_output(), Err(Error::DepthExceeded));
}

#[test]
fn failure_of_the_callback_itself_is_latched() {
    let mut encoder = Encoder::new();
    let built = encoder.emit_list(|e| {
        e.emit_int(1)?;
        Err(Error::NoValueEmitted)
    });
    assert_eq!(built, Err(Error::NoValueEmitted));
    assert_eq!(encoder.emit_int(2), Err(Error::NoValueEmitted));
    assert_eq!(encoder.get_output(), Err(Error::NoValueEmitted));
}

#[test]
fn swallowed_error_still_fails_the_list() {
    let mut encoder = Encoder::new().with_max_depth(1);
    let built = encoder.emit_list(|e| {
        let _ = e.emit_list(|_| Ok(()));
        Ok(())
    });
    assert_eq!(built, Err(Error::DepthExceeded));
}

#[test]
fn depth_zero_allows_scalars_only() {
    let mut encoder = Encoder::new().with_max_depth(0);
    assert_eq!(encoder.emit_int(5), Ok(()));
    assert_eq!(encoder.get_output(), Ok(b"i5e".to_vec()));

    let mut encoder = Encoder::new().with_max_depth(0);
    assert_eq!(encoder.emit_dict(|_| Ok(())), Err(Error::DepthExceeded));

    let mut encoder = Encoder::new().with_max_depth(0);
    assert_eq!(encoder.emit_unsorted_dict(|_| Ok(())), Err(Error::DepthExceeded));
}

fn nest_lists(encoder: &mut Encoder, levels: usize) -> Result<(), Error> {
    if levels == 0 {
        encoder.emit_int(0)
    } else {
        encoder.emit_list(|e| nest_lists(e, levels - 1))
    }
}

#[test]
fn opening_to_exactly_the_maximum_succeeds() {
    for depth in 0..6usize {
        let mut encoder = Encoder::new().with_max_depth(depth);
        assert_eq!(nest_lists(&mut encoder, depth), Ok(()));
        let mut expected = Vec::new();
        expected.extend(std::iter::repeat(b'l').take(depth));
        expected.extend_from_slice(b"i0e");
        expected.extend(std::iter::repeat(b'e').take(depth));
        assert_eq!(encoder.get_output(), Ok(expected));
    }
}

#[test]
fn opening_one_past_the_maximum_fails() {
    for depth in 0..6usize {
        let mut encoder = Encoder::new().with_max_depth(depth);
        assert_eq!(nest_lists(&mut encoder, depth + 1), Err(Error::DepthExceeded));
        assert_eq!(encoder.get_output(), Err(Error::DepthExceeded));
    }
}

#[test]
fn default_depth_limit_is_2048() {
    let mut encoder = Encoder::new();
    assert_eq!(nest_lists(&mut encoder, 2048), Ok(()));
    let mut encoder = Encoder::new();
    assert_eq!(nest_lists(&mut encoder, 2049), Err(Error::DepthExceeded));
}

#[test]
fn dictionary_values_count_towards_the_depth() {
    // dict at depth 1, list at depth 2
    let mut encoder = Encoder::new().with_max_depth(2);
    let built = encoder.emit_dict(|mut d| d.emit_pair(b"a", |v| v.emit_list(|_| Ok(()))));
    assert_eq!(built, Ok(()));
    assert_eq!(encoder.get_output(), Ok(b"d1:alee".to_vec()));

    // one level more does not fit
    let mut encoder = Encoder::new().with_max_depth(2);
    let built = encoder
        .emit_dict(|mut d| d.emit_pair(b"a", |v| v.emit_list(|e| e.emit_list(|_| Ok(())))));
    assert_eq!(built, Err(Error::DepthExceeded));
    assert_eq!(encoder.get_output(), Err(Error::DepthExceeded));

    // with depth 1 the value may only be a scalar
    let mut encoder = Encoder::new().with_max_depth(1);
    let built = encoder.emit_dict(|mut d| {
        d.emit_pair(b"a", |v| v.emit_int(1))?;
        d.emit_pair(b"b", |v| v.emit_dict(|_| Ok(())))
    });
    assert_eq!(built, Err(Error::DepthExceeded));
}

#[test]
fn staged_values_count_towards_the_depth() {
    let mut encoder = Encoder::new().with_max_depth(2);
    let built =
        encoder.emit_unsorted_dict(|d| d.emit_pair(b"a", |v| v.emit_unsorted_dict(|_| Ok(()))));
    assert_eq!(built, Ok(()));
    assert_eq!(encoder.get_output(), Ok(b"d1:adee".to_vec()));

    let mut encoder = Encoder::new().with_max_depth(2);
    let built = encoder.emit_unsorted_dict(|d| {
        d.emit_pair(b"a", |v| {
            v.emit_unsorted_dict(|d| d.emit_pair(b"b", |v| v.emit_list(|_| Ok(()))))
        })
    });
    assert_eq!(built, Err(Error::DepthExceeded));
    assert_eq!(encoder.get_output(), Err(Error::DepthExceeded));
}

#[test]
fn depth_limit_can_be_set_after_a_finished_value() {
    let mut encoder = Encoder::new();
    assert_eq!(encoder.emit_list(|e| e.emit_list(|_| Ok(()))), Ok(()));
    let encoder = encoder.with_max_depth(0);
    assert_eq!(encoder.get_output(), Ok(b"llee".to_vec()));
}

#[test]
fn depth_limit_does_not_revive_a_failed_encoder() {
    let mut encoder = Encoder::new().with_max_depth(0);
    assert_eq!(encoder.emit_list(|_| Ok(())), Err(Error::DepthExceeded));
    let mut encoder = encoder.with_max_depth(5);
    assert_eq!(encoder.emit_int(1), Err(Error::DepthExceeded));
}

#[test]
fn last_depth_limit_counts() {
    let mut encoder = Encoder::new().with_max_depth(0).with_max_depth(1);
    assert_eq!(encoder.emit_list(|e| e.emit_int(1)), Ok(()));
    assert_eq!(encoder.get_output(), Ok(b"li1ee".to_vec()));
}
