use bencode_zero::state_tracker::{StateTracker, Token, DEFAULT_MAX_DEPTH};
use bencode_zero::Error;

#[test]
fn fresh_tracker_has_the_default_depth() {
    let tracker = StateTracker::new();
    assert_eq!(DEFAULT_MAX_DEPTH, 2048);
    assert_eq!(tracker.remaining_depth(), 2048);
    assert_eq!(tracker.check_error(), Ok(()));
    assert_eq!(StateTracker::default().remaining_depth(), 2048);
}

#[test]
fn scalar_at_the_root_completes_the_stream() {
    let mut tracker = StateTracker::new();
    assert_eq!(tracker.observe_token(&Token::Num("12")), Ok(()));
    assert_eq!(tracker.observe_eof(), Ok(()));
    assert_eq!(tracker.observe_eof(), Ok(()));
}

#[test]
fn eof_before_any_value_is_incomplete() {
    let mut tracker = StateTracker::new();
    assert_eq!(tracker.observe_eof(), Err(Error::IncompleteAtFinalize));
    assert_eq!(tracker.check_error(), Err(Error::IncompleteAtFinalize));
    assert_eq!(tracker.observe_token(&Token::List), Err(Error::IncompleteAtFinalize));
}

#[test]
fn eof_inside_a_container_is_incomplete() {
    let mut tracker = StateTracker::new();
    assert_eq!(tracker.observe_token(&Token::List), Ok(()));
    assert_eq!(tracker.observe_token(&Token::String(b"a")), Ok(()));
    assert_eq!(tracker.observe_eof(), Err(Error::IncompleteAtFinalize));
}

#[test]
fn eof_after_the_last_close_succeeds() {
    let mut tracker = StateTracker::new();
    assert_eq!(tracker.observe_token(&Token::Dict), Ok(()));
    assert_eq!(tracker.observe_token(&Token::String(b"k")), Ok(()));
    assert_eq!(tracker.observe_token(&Token::List), Ok(()));
    assert_eq!(tracker.observe_token(&Token::End), Ok(()));
    assert_eq!(tracker.observe_token(&Token::End), Ok(()));
    assert_eq!(tracker.observe_eof(), Ok(()));
}

#[test]
fn close_at_the_empty_root_is_unexpected() {
    let mut tracker = StateTracker::new();
    assert_eq!(tracker.observe_token(&Token::End), Err(Error::UnexpectedToken));
    assert_eq!(tracker.check_error(), Err(Error::UnexpectedToken));
}

#[test]
fn any_token_after_the_root_value_is_extra() {
    for token in [Token::List, Token::Dict, Token::String(b"x"), Token::Num("1"), Token::End] {
        let mut tracker = StateTracker::new();
        assert_eq!(tracker.observe_token(&Token::String(b"root")), Ok(()));
        assert_eq!(tracker.observe_token(&token), Err(Error::ExtraTopLevelValue));
    }
    for token in [Token::List, Token::Dict, Token::String(b"x"), Token::Num("1"), Token::End] {
        let mut tracker = StateTracker::new();
        assert_eq!(tracker.observe_token(&Token::List), Ok(()));
        assert_eq!(tracker.observe_token(&Token::End), Ok(()));
        assert_eq!(tracker.observe_token(&token), Err(Error::ExtraTopLevelValue));
    }
}

#[test]
fn dictionary_key_must_be_a_byte_string() {
    for token in [Token::List, Token::Dict, Token::Num("1")] {
        let mut tracker = StateTracker::new();
        assert_eq!(tracker.observe_token(&Token::Dict), Ok(()));
        assert_eq!(tracker.observe_token(&token), Err(Error::UnexpectedToken));
    }
}

#[test]
fn close_where_a_dictionary_value_is_due_is_unexpected() {
    let mut tracker = StateTracker::new();
    assert_eq!(tracker.observe_token(&Token::Dict), Ok(()));
    assert_eq!(tracker.observe_token(&Token::String(b"k")), Ok(()));
    assert_eq!(tracker.observe_token(&Token::End), Err(Error::UnexpectedToken));
}

#[test]
fn dictionary_alternates_keys_and_values() {
    let mut tracker = StateTracker::new();
    assert_eq!(tracker.observe_token(&Token::Dict), Ok(()));
    assert_eq!(tracker.observe_token(&Token::String(b"a")), Ok(()));
    assert_eq!(tracker.observe_token(&Token::Num("1")), Ok(()));
    assert_eq!(tracker.observe_token(&Token::String(b"b")), Ok(()));
    assert_eq!(tracker.observe_token(&Token::String(b"v")), Ok(()));
    assert_eq!(tracker.observe_token(&Token::String(b"c")), Ok(()));
    assert_eq!(tracker.observe_token(&Token::Dict), Ok(()));
    assert_eq!(tracker.observe_token(&Token::End), Ok(()));
    // the nested dictionary was the value, so a number is no key
    assert_eq!(tracker.observe_token(&Token::Num("1")), Err(Error::UnexpectedToken));
}

#[test]
fn remaining_depth_follows_the_stack() {
    let mut tracker = StateTracker::new();
    tracker.set_max_depth(3);
    assert_eq!(tracker.remaining_depth(), 3);
    assert_eq!(tracker.observe_token(&Token::List), Ok(()));
    assert_eq!(tracker.remaining_depth(), 2);
    assert_eq!(tracker.observe_token(&Token::Dict), Ok(()));
    assert_eq!(tracker.remaining_depth(), 1);
    assert_eq!(tracker.observe_token(&Token::String(b"k")), Ok(()));
    assert_eq!(tracker.remaining_depth(), 1);
    assert_eq!(tracker.observe_token(&Token::List), Ok(()));
    assert_eq!(tracker.remaining_depth(), 0);
    assert_eq!(tracker.observe_token(&Token::Num("0")), Ok(()));
    assert_eq!(tracker.observe_token(&Token::End), Ok(()));
    assert_eq!(tracker.remaining_depth(), 1);
}

#[test]
fn opening_past_the_maximum_is_refused() {
    for max in 0..5usize {
        let mut tracker = StateTracker::new();
        tracker.set_max_depth(max);
        for _ in 0..max {
            assert_eq!(tracker.observe_token(&Token::List), Ok(()));
        }
        assert_eq!(tracker.remaining_depth(), 0);
        assert_eq!(tracker.observe_token(&Token::Dict), Err(Error::DepthExceeded));
        // the stack is as it was
        assert_eq!(tracker.remaining_depth(), 0);
    }
}

#[test]
fn grammar_is_checked_before_the_depth() {
    let mut tracker = StateTracker::new();
    tracker.set_max_depth(1);
    assert_eq!(tracker.observe_token(&Token::Dict), Ok(()));
    assert_eq!(tracker.observe_token(&Token::List), Err(Error::UnexpectedToken));

    let mut tracker = StateTracker::new();
    tracker.set_max_depth(0);
    assert_eq!(tracker.observe_token(&Token::Num("1")), Ok(()));
    assert_eq!(tracker.observe_token(&Token::List), Err(Error::ExtraTopLevelValue));
}

#[test]
fn first_error_is_kept() {
    let mut tracker = StateTracker::new();
    assert_eq!(tracker.observe_token(&Token::End), Err(Error::UnexpectedToken));
    assert_eq!(tracker.observe_token(&Token::Num("1")), Err(Error::UnexpectedToken));
    assert_eq!(tracker.observe_token(&Token::List), Err(Error::UnexpectedToken));
    assert_eq!(tracker.observe_eof(), Err(Error::UnexpectedToken));
    assert_eq!(tracker.latch_err::<()>(Err(Error::DuplicateKey)), Err(Error::UnexpectedToken));
    assert_eq!(tracker.latch_err(Ok(5)), Err(Error::UnexpectedToken));
    assert_eq!(tracker.check_error(), Err(Error::UnexpectedToken));
    assert_eq!(tracker.remaining_depth(), 2048);
}

#[test]
fn latch_err_stores_the_first_error_only() {
    let mut tracker = StateTracker::new();
    assert_eq!(tracker.latch_err(Ok(7)), Ok(7));
    assert_eq!(tracker.check_error(), Ok(()));
    assert_eq!(tracker.latch_err::<u8>(Err(Error::NoValueEmitted)), Err(Error::NoValueEmitted));
    assert_eq!(tracker.check_error(), Err(Error::NoValueEmitted));
    assert_eq!(tracker.latch_err::<u8>(Err(Error::DuplicateKey)), Err(Error::NoValueEmitted));
    assert_eq!(tracker.observe_token(&Token::Num("1")), Err(Error::NoValueEmitted));
}

#[test]
fn limit_below_the_open_depth_is_refused() {
    let mut tracker = StateTracker::new();
    assert_eq!(tracker.observe_token(&Token::List), Ok(()));
    assert_eq!(tracker.observe_token(&Token::List), Ok(()));
    tracker.set_max_depth(1);
    assert_eq!(tracker.check_error(), Err(Error::DepthExceeded));
    assert_eq!(tracker.observe_token(&Token::End), Err(Error::DepthExceeded));
    // the limit itself is as it was
    assert_eq!(tracker.remaining_depth(), 2046);
}

#[test]
fn limit_equal_to_the_open_depth_is_kept() {
    let mut tracker = StateTracker::new();
    assert_eq!(tracker.observe_token(&Token::List), Ok(()));
    assert_eq!(tracker.observe_token(&Token::List), Ok(()));
    tracker.set_max_depth(2);
    assert_eq!(tracker.check_error(), Ok(()));
    assert_eq!(tracker.remaining_depth(), 0);
    assert_eq!(tracker.observe_token(&Token::Num("1")), Ok(()));
    assert_eq!(tracker.observe_token(&Token::List), Err(Error::DepthExceeded));
}

#[test]
fn latched_tracker_keeps_its_limit() {
    let mut tracker = StateTracker::new();
    tracker.set_max_depth(7);
    assert_eq!(tracker.observe_token(&Token::End), Err(Error::UnexpectedToken));
    tracker.set_max_depth(3);
    assert_eq!(tracker.remaining_depth(), 7);
    assert_eq!(tracker.check_error(), Err(Error::UnexpectedToken));
}
