//! The order of dictionary keys, stated over token sequences.
//!
//! The format wants the keys of every dictionary strictly increasing. The
//! automaton does not look at keys, so this is kept apart from the grammar:
//! [`ordered`] reads a token sequence with, for every open container, the
//! last key that was seen in it.
use vstd::prelude::*;
use crate::grammar::{
    closing,
    is_value,
    lemma_replay_concat,
    lemma_replay_nested,
    lemma_replay_one,
    lemma_replay_progress,
    lemma_replay_push,
    lemma_replay_wf,
    lemma_advance_wf,
    lemma_nested_within_depth,
    lemma_value_in_context,
    lemma_within_depth_concat,
    nested,
    replay,
    replay_from,
    within_depth,
};
use crate::keys::key_lt;
use crate::staging::{sorted, Staged};
use crate::state_tracker::{Frame, Shape, Tok};

verus! {

/// For every open container, innermost last, the latest key seen in it:
/// `None` for a list, and for a dictionary that has no key yet.
pub type LastKeys = Seq<Option<Seq<u8>>>;

/// Whether `t` may follow at `shape` without breaking the order of keys: a
/// key must come after the latest key of its dictionary.
pub open spec fn in_order(shape: Shape, last: LastKeys, t: Tok) -> bool {
    match t {
        Tok::String(k) => if shape.top() == Some(Frame::DictExpectingKey) && last.len() > 0 {
            match last.last() {
                Some(prev) => key_lt(prev, k),
                None => true,
            }
        } else {
            true
        },
        _ => true,
    }
}

/// The latest keys after `t` was accepted at `shape`.
pub open spec fn keys_after(shape: Shape, last: LastKeys, t: Tok) -> LastKeys {
    if t.opens() {
        last.push(None)
    } else if t is End {
        last.drop_last()
    } else if shape.top() == Some(Frame::DictExpectingKey) {
        match t {
            Tok::String(k) => last.drop_last().push(Some(k)),
            _ => last,
        }
    } else {
        last
    }
}

/// The latest keys after `ts` was read from `start`, or `None` where the
/// grammar refuses a token or a key is out of order.
pub open spec fn keys_from(start: Shape, last: LastKeys, ts: Seq<Tok>) -> Option<LastKeys>
    decreases ts.len(),
{
    if ts.len() == 0 {
        Some(last)
    } else {
        match (replay_from(start, ts.drop_last()), keys_from(start, last, ts.drop_last())) {
            (Some(s), Some(l)) => if s.mismatch(ts.last()) is None && in_order(s, l, ts.last()) {
                Some(keys_after(s, l, ts.last()))
            } else {
                None
            },
            _ => None,
        }
    }
}

/// The grammar accepts `ts` from the start of a stream, and the keys of every
/// dictionary in it are strictly increasing.
pub open spec fn ordered(ts: Seq<Tok>) -> bool {
    keys_from(Shape::start(), Seq::empty(), ts) is Some
}

/// The latest keys of the containers that `ts` leaves open, where `ts` is in
/// order.
pub open spec fn latest_keys(ts: Seq<Tok>) -> LastKeys {
    keys_from(Shape::start(), Seq::empty(), ts).unwrap()
}

/// The tokens of staged entries in the order in which they stand: each key,
/// then the tokens of its value.
pub open spec fn entry_tokens(entries: Seq<Staged>) -> Seq<Tok>
    decreases entries.len(),
{
    if entries.len() == 0 {
        Seq::empty()
    } else {
        entry_tokens(entries.drop_last()).push(Tok::String(entries.last().key))
            + entries.last().value
    }
}

/// Reading one more token.
pub proof fn lemma_keys_push(start: Shape, last: LastKeys, ts: Seq<Tok>, t: Tok)
    ensures
        keys_from(start, last, ts.push(t)) == (match (
            replay_from(start, ts),
            keys_from(start, last, ts),
        ) {
            (Some(s), Some(l)) => if s.mismatch(t) is None && in_order(s, l, t) {
                Some(keys_after(s, l, t))
            } else {
                None
            },
            _ => None,
        }),
{
    assert(ts.push(t).drop_last() =~= ts);
}

/// What is read in order is accepted by the grammar, and there is one latest
/// key for every open container.
pub proof fn lemma_keys_follow_shape(start: Shape, last: LastKeys, ts: Seq<Tok>)
    requires
        last.len() == start.stack.len(),
        keys_from(start, last, ts) is Some,
    ensures
        replay_from(start, ts) is Some,
        keys_from(start, last, ts).unwrap().len() == replay_from(start, ts).unwrap().stack.len(),
    decreases ts.len(),
{
    if ts.len() > 0 {
        lemma_keys_follow_shape(start, last, ts.drop_last());
    }
}

/// Reading a concatenation reads the second part from where the first ends.
pub proof fn lemma_keys_concat(start: Shape, last: LastKeys, a: Seq<Tok>, b: Seq<Tok>)
    ensures
        keys_from(start, last, a + b) == (match (replay_from(start, a), keys_from(start, last, a)) {
            (Some(m), Some(l)) => keys_from(m, l, b),
            _ => None,
        }),
    decreases b.len(),
{
    if b.len() == 0 {
        assert(a + b =~= a);
        if keys_from(start, last, a) is Some && replay_from(start, a) is None {
            lemma_keys_imply_replay(start, last, a);
        }
    } else {
        lemma_keys_concat(start, last, a, b.drop_last());
        lemma_replay_concat(start, a, b.drop_last());
        assert((a + b).drop_last() =~= a + b.drop_last());
        assert((a + b).last() == b.last());
    }
}

/// What is read in order is accepted by the grammar.
pub proof fn lemma_keys_imply_replay(start: Shape, last: LastKeys, ts: Seq<Tok>)
    requires
        keys_from(start, last, ts) is Some,
    ensures
        replay_from(start, ts) is Some,
    decreases ts.len(),
{
    if ts.len() > 0 {
        lemma_keys_imply_replay(start, last, ts.drop_last());
    }
}

/// Tokens that are in order on their own stay in order wherever a value is
/// expected: the keys around them are not touched, and their own keys stand
/// on top of those.
pub proof fn lemma_keys_nested(s: Shape, last: LastKeys, ts: Seq<Tok>)
    requires
        s.expects_value(),
        last.len() == s.stack.len(),
        ts.len() > 0,
        ordered(ts),
    ensures
        keys_from(s, last, ts) == Some(last + keys_from(Shape::start(), Seq::empty(), ts).unwrap()),
    decreases ts.len(),
{
    let none = Seq::<Option<Seq<u8>>>::empty();
    let q = ts.drop_last();
    let t = ts.last();
    lemma_keys_imply_replay(Shape::start(), none, ts);
    lemma_keys_follow_shape(Shape::start(), none, ts);
    lemma_keys_follow_shape(Shape::start(), none, q);
    let cq = replay(q).unwrap();
    let kq = keys_from(Shape::start(), none, q).unwrap();
    let k = keys_from(Shape::start(), none, ts).unwrap();
    assert(cq.mismatch(t) is None && in_order(cq, kq, t));
    assert(k == keys_after(cq, kq, t));
    if q.len() == 0 {
        assert(replay_from(s, q) == Some(s));
        assert(keys_from(s, last, q) == Some(last));
        assert(s.mismatch(t) is None);
        assert(in_order(s, last, t));
        if t.opens() {
            assert(last.push(None) =~= last + k);
        } else {
            assert(k =~= none);
            assert(last =~= last + k);
        }
    } else {
        lemma_keys_nested(s, last, q);
        lemma_replay_nested(s, q);
        lemma_replay_progress(q);
        lemma_replay_wf(Shape::start(), q);
        let lq = nested(s, cq);
        let lk = last + kq;
        assert(replay_from(s, q) == Some(lq));
        assert(keys_from(s, last, q) == Some(lk));
        assert(cq.stack.len() > 0);
        assert(kq.len() > 0);
        assert(lq.stack.last() == cq.stack.last());
        assert(lq.top() == cq.top());
        assert(lk.last() == kq.last());
        assert(lq.mismatch(t) is None);
        assert(in_order(lq, lk, t));
        assert(lk.drop_last() =~= last + kq.drop_last());
        if t.opens() {
            assert(lk.push(None) =~= last + kq.push(None));
        } else if t is End {
        } else if cq.top() == Some(Frame::DictExpectingKey) {
            match t {
                Tok::String(key) => {
                    assert(lk.drop_last().push(Some(key)) =~= last + kq.drop_last().push(
                        Some(key),
                    ));
                },
                _ => {},
            }
        }
        assert(keys_after(lq, lk, t) =~= last + k);
    }
}

/// One whole value that is in order on its own, written where a value is
/// expected, leaves the latest keys around it as they were.
pub proof fn lemma_value_keeps_keys(s: Shape, last: LastKeys, value: Seq<Tok>)
    requires
        s.expects_value(),
        last.len() == s.stack.len(),
        is_value(value),
        ordered(value),
    ensures
        keys_from(s, last, value) == Some(last),
        replay_from(s, value) == Some(s.after_value()),
{
    let none = Seq::<Option<Seq<u8>>>::empty();
    assert(value.len() > 0);
    lemma_keys_nested(s, last, value);
    lemma_keys_follow_shape(Shape::start(), none, value);
    lemma_value_in_context(s, value);
    assert(last + keys_from(Shape::start(), none, value).unwrap() =~= last);
}

/// The closing tokens hold no key, so they keep every order.
pub proof fn lemma_closing_keeps_order(s: Shape, last: LastKeys)
    requires
        s.wf(),
        last.len() == s.stack.len(),
    ensures
        keys_from(s, last, closing(s)) is Some,
    decreases s.stack.len(), (if s.top() == Some(Frame::DictExpectingValue) { 1nat } else { 0nat }),
{
    let zero = Tok::Num(seq![48u8]);
    if s.stack.len() == 0 {
        if !s.complete {
            lemma_keys_push(s, last, Seq::empty(), zero);
            assert(Seq::<Tok>::empty().push(zero) =~= seq![zero]);
        }
    } else if s.top() == Some(Frame::DictExpectingValue) {
        let next = s.after_value();
        lemma_closing_keeps_order(next, last);
        lemma_keys_concat(s, last, seq![zero], closing(next));
        lemma_keys_push(s, last, Seq::empty(), zero);
        assert(Seq::<Tok>::empty().push(zero) =~= seq![zero]);
        lemma_replay_one(s, zero);
        assert(s.advance(zero) == next);
    } else {
        let next = s.advance(Tok::End);
        lemma_advance_wf(s, Tok::End);
        lemma_closing_keeps_order(next, last.drop_last());
        lemma_keys_concat(s, last, seq![Tok::End], closing(next));
        lemma_keys_push(s, last, Seq::empty(), Tok::End);
        assert(Seq::<Tok>::empty().push(Tok::End) =~= seq![Tok::End]);
        lemma_replay_one(s, Tok::End);
    }
}

/// Entries whose keys are strictly increasing, and whose values are in order
/// on their own, are in order when written into a dictionary whose latest key
/// comes before the first of them. The dictionary is then again between two
/// pairs.
pub proof fn lemma_entries_in_order(s: Shape, last: LastKeys, entries: Seq<Staged>)
    requires
        s.wf(),
        s.top() == Some(Frame::DictExpectingKey),
        last.len() == s.stack.len(),
        sorted(entries),
        forall|i: int|
            0 <= i < entries.len() ==> is_value((#[trigger] entries[i]).value) && ordered(
                entries[i].value,
            ),
        entries.len() > 0 ==> (match last.last() {
            Some(prev) => key_lt(prev, entries[0].key),
            None => true,
        }),
    ensures
        replay_from(s, entry_tokens(entries)) == Some(s),
        keys_from(s, last, entry_tokens(entries)) == Some(
            if entries.len() == 0 {
                last
            } else {
                last.drop_last().push(Some(entries.last().key))
            },
        ),
    decreases entries.len(),
{
    if entries.len() > 0 {
        let front = entries.drop_last();
        let entry = entries.last();
        let key = Tok::String(entry.key);
        assert forall|i: int| 0 <= i < front.len() implies is_value((#[trigger] front[i]).value)
            && ordered(front[i].value) by {
            assert(front[i] == entries[i]);
        }
        assert(sorted(front)) by {
            assert forall|i: int, j: int| 0 <= i < j < front.len() implies key_lt(
                #[trigger] front[i].key,
                #[trigger] front[j].key,
            ) by {
                assert(front[i] == entries[i] && front[j] == entries[j]);
            }
        }
        if front.len() > 0 {
            assert(front[0] == entries[0]);
        }
        lemma_entries_in_order(s, last, front);
        let before = entry_tokens(front);
        let mid = if front.len() == 0 {
            last
        } else {
            last.drop_last().push(Some(front.last().key))
        };
        // the key
        lemma_replay_push(s, before, key);
        lemma_keys_push(s, last, before, key);
        assert(in_order(s, mid, key)) by {
            if front.len() > 0 {
                assert(front.last() == entries[entries.len() - 2]);
                assert(key_lt(entries[entries.len() - 2].key, entries[entries.len() - 1].key));
            } else {
                assert(entries[0] == entry);
            }
        }
        let keyed = s.advance(key);
        let after_key = mid.drop_last().push(Some(entry.key));
        assert(after_key =~= last.drop_last().push(Some(entry.key)));
        assert(keys_from(s, last, before.push(key)) == Some(after_key));
        // the value
        lemma_value_keeps_keys(keyed, after_key, entry.value);
        lemma_replay_concat(s, before.push(key), entry.value);
        lemma_keys_concat(s, last, before.push(key), entry.value);
        assert(keyed.after_value().stack =~= s.stack);
        assert(keyed.after_value() == s);
    }
}

/// Staged entries whose values are whole values, written into a dictionary
/// between two pairs, leave the dictionary between two pairs again, and nest
/// no deeper than the dictionary's depth plus that of the deepest value.
pub proof fn lemma_entries_within_depth(s: Shape, entries: Seq<Staged>, inner: nat, max: nat)
    requires
        s.wf(),
        s.top() == Some(Frame::DictExpectingKey),
        forall|i: int|
            0 <= i < entries.len() ==> is_value((#[trigger] entries[i]).value) && within_depth(
                inner,
                Shape::start(),
                entries[i].value,
            ),
        s.stack.len() + inner <= max,
    ensures
        replay_from(s, entry_tokens(entries)) == Some(s),
        within_depth(max, s, entry_tokens(entries)),
    decreases entries.len(),
{
    if entries.len() > 0 {
        let front = entries.drop_last();
        let entry = entries.last();
        let key = Tok::String(entry.key);
        assert forall|i: int| 0 <= i < front.len() implies is_value((#[trigger] front[i]).value)
            && within_depth(inner, Shape::start(), front[i].value) by {
            assert(front[i] == entries[i]);
        }
        lemma_entries_within_depth(s, front, inner, max);
        let before = entry_tokens(front);
        lemma_replay_push(s, before, key);
        let keyed = s.advance(key);
        assert(before.push(key).drop_last() =~= before);
        assert(within_depth(max, s, before.push(key)));
        lemma_value_in_context(keyed, entry.value);
        lemma_nested_within_depth(keyed, entry.value, inner, max);
        lemma_replay_concat(s, before.push(key), entry.value);
        lemma_within_depth_concat(max, s, before.push(key), entry.value);
        assert(keyed.after_value().stack =~= s.stack);
    }
}

} // verus!
