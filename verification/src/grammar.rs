//! The wire format, stated over token sequences.
//!
//! A token sequence is turned into bytes by [`serialize`] and read against the
//! grammar by [`replay`]. The lemmas here relate the two: serialization
//! distributes over concatenation, one whole value behaves like a scalar
//! wherever a value is expected, and every accepted sequence can be completed
//! to one whole value.
use vstd::prelude::*;
use crate::integer::{digits, is_decimal};
use crate::state_tracker::{Frame, Machine, Shape, Tok};

verus! {

impl Tok {
    /// The bytes that stand for the token.
    pub open spec fn encoding(self) -> Seq<u8> {
        match self {
            Tok::List => seq![108u8],
            Tok::Dict => seq![100u8],
            Tok::String(s) => digits(s.len()) + seq![58u8] + s,
            Tok::Num(n) => seq![105u8] + n + seq![101u8],
            Tok::End => seq![101u8],
        }
    }

    /// A number's literal text is a decimal integer; every other token is
    /// well formed as it is.
    pub open spec fn wf(self) -> bool {
        match self {
            Tok::Num(n) => is_decimal(n),
            _ => true,
        }
    }
}

/// Every number among `ts` has decimal text.
pub open spec fn literals_ok(ts: Seq<Tok>) -> bool {
    forall|i: int| 0 <= i < ts.len() ==> (#[trigger] ts[i]).wf()
}

/// The bytes of a token sequence: the tokens' encodings, one after another.
pub open spec fn serialize(ts: Seq<Tok>) -> Seq<u8>
    decreases ts.len(),
{
    if ts.len() == 0 {
        Seq::empty()
    } else {
        serialize(ts.drop_last()) + ts.last().encoding()
    }
}

/// The position that `ts` leads to from `start`, or `None` where the grammar
/// refuses one of the tokens.
pub open spec fn replay_from(start: Shape, ts: Seq<Tok>) -> Option<Shape>
    decreases ts.len(),
{
    if ts.len() == 0 {
        Some(start)
    } else {
        match replay_from(start, ts.drop_last()) {
            Some(s) => if s.mismatch(ts.last()) is None {
                Some(s.advance(ts.last()))
            } else {
                None
            },
            None => None,
        }
    }
}

/// The position that `ts` leads to from the start of a stream.
pub open spec fn replay(ts: Seq<Tok>) -> Option<Shape> {
    replay_from(Shape::start(), ts)
}

/// `ts` is exactly one whole value: the grammar accepts it, every container it
/// opens is closed, and nothing follows the value.
pub open spec fn is_value(ts: Seq<Tok>) -> bool {
    match replay(ts) {
        Some(s) => s.finished(),
        None => false,
    }
}

/// Tokens that complete any position to one whole value: a number where a
/// value is due, then a close for every open container.
pub open spec fn closing(s: Shape) -> Seq<Tok>
    decreases s.stack.len(), (if s.top() == Some(Frame::DictExpectingValue) { 1nat } else { 0nat }),
{
    if s.stack.len() == 0 {
        if s.complete {
            Seq::empty()
        } else {
            seq![Tok::Num(seq![48u8])]
        }
    } else if s.top() == Some(Frame::DictExpectingValue) {
        seq![Tok::Num(seq![48u8])] + closing(s.after_value())
    } else {
        seq![Tok::End] + closing(s.advance(Tok::End))
    }
}

/// Serializing one more token appends its encoding.
pub proof fn lemma_serialize_push(ts: Seq<Tok>, t: Tok)
    ensures
        serialize(ts.push(t)) == serialize(ts) + t.encoding(),
{
    assert(ts.push(t).drop_last() =~= ts);
}

/// Serialization distributes over concatenation.
pub proof fn lemma_serialize_concat(a: Seq<Tok>, b: Seq<Tok>)
    ensures
        serialize(a + b) == serialize(a) + serialize(b),
    decreases b.len(),
{
    if b.len() == 0 {
        assert(a + b =~= a);
        assert(serialize(a) + serialize(b) =~= serialize(a));
    } else {
        lemma_serialize_concat(a, b.drop_last());
        assert((a + b).drop_last() =~= a + b.drop_last());
        assert((a + b).last() == b.last());
        assert(serialize(a + b) =~= serialize(a) + serialize(b));
    }
}

/// Replaying one more token moves on from the position reached so far.
pub proof fn lemma_replay_push(start: Shape, ts: Seq<Tok>, t: Tok)
    ensures
        replay_from(start, ts.push(t)) == (match replay_from(start, ts) {
            Some(s) => if s.mismatch(t) is None {
                Some(s.advance(t))
            } else {
                None
            },
            None => None,
        }),
{
    assert(ts.push(t).drop_last() =~= ts);
}

/// Replaying a concatenation replays the second part from where the first
/// part ends.
pub proof fn lemma_replay_concat(start: Shape, a: Seq<Tok>, b: Seq<Tok>)
    ensures
        replay_from(start, a + b) == (match replay_from(start, a) {
            Some(m) => replay_from(m, b),
            None => None,
        }),
    decreases b.len(),
{
    if b.len() == 0 {
        assert(a + b =~= a);
    } else {
        lemma_replay_concat(start, a, b.drop_last());
        assert((a + b).drop_last() =~= a + b.drop_last());
        assert((a + b).last() == b.last());
    }
}

/// An accepted token leads from a reachable position to a reachable position.
pub proof fn lemma_advance_wf(s: Shape, t: Tok)
    requires
        s.wf(),
        s.mismatch(t) is None,
    ensures
        s.advance(t).wf(),
{
}

/// Every position that a token sequence leads to from a reachable position is
/// reachable.
pub proof fn lemma_replay_wf(start: Shape, ts: Seq<Tok>)
    requires
        start.wf(),
    ensures
        replay_from(start, ts) matches Some(s) ==> s.wf(),
    decreases ts.len(),
{
    if ts.len() > 0 {
        lemma_replay_wf(start, ts.drop_last());
        match replay_from(start, ts.drop_last()) {
            Some(s) => {
                if s.mismatch(ts.last()) is None {
                    lemma_advance_wf(s, ts.last());
                }
            },
            None => {},
        }
    }
}

/// From the start of a stream, only the empty sequence leaves nothing open
/// and nothing complete.
pub proof fn lemma_replay_progress(ts: Seq<Tok>)
    ensures
        replay(ts) matches Some(s) ==> (s.stack.len() == 0 && !s.complete ==> ts.len() == 0),
    decreases ts.len(),
{
    if ts.len() > 0 {
        lemma_replay_progress(ts.drop_last());
        lemma_replay_wf(Shape::start(), ts.drop_last());
    }
}

/// The position that the tokens of a value under construction lead to, seen
/// from a context `s` that expected a value: `inner` is the position of the
/// value's own tokens, replayed alone.
pub open spec fn nested(s: Shape, inner: Shape) -> Shape {
    if inner.stack.len() == 0 {
        s.after_value()
    } else {
        Shape { stack: s.settled() + inner.stack, complete: false }
    }
}

/// Tokens that the grammar accepts on their own, and that are at least one,
/// are accepted wherever a value is expected, and lead to the nested position.
pub proof fn lemma_replay_nested(s: Shape, ts: Seq<Tok>)
    requires
        s.expects_value(),
        ts.len() > 0,
        replay(ts) is Some,
    ensures
        replay_from(s, ts) == Some(nested(s, replay(ts).unwrap())),
    decreases ts.len(),
{
    let q = ts.drop_last();
    let t = ts.last();
    let cq = replay(q).unwrap();
    let c = replay(ts).unwrap();
    assert(cq.mismatch(t) is None);
    assert(c == cq.advance(t));
    if q.len() == 0 {
        assert(cq == Shape::start());
        assert(replay_from(s, q) == Some(s));
        assert(s.mismatch(t) is None);
        if t.opens() {
            assert(s.advance(t).stack =~= s.settled() + c.stack);
        } else {
            assert(c.stack.len() == 0);
        }
    } else {
        lemma_replay_nested(s, q);
        lemma_replay_progress(q);
        lemma_replay_wf(Shape::start(), q);
        let lq = nested(s, cq);
        assert(replay_from(s, q) == Some(lq));
        assert(cq.stack.len() > 0);
        assert(lq.stack.last() == cq.stack.last());
        assert(lq.top() == cq.top());
        assert(lq.mismatch(t) is None);
        let base = s.settled();
        assert(lq.settled() =~= base + cq.settled());
        assert(lq.stack.drop_last() =~= base + cq.stack.drop_last());
        if t.opens() {
            assert(lq.advance(t).stack =~= base + c.stack);
        } else if t is End {
            if cq.stack.len() == 1 {
                assert(base + cq.stack.drop_last() =~= base);
                assert(base.len() == s.stack.len());
            }
            assert(lq.advance(t) == nested(s, c));
        } else {
            match cq.top() {
                Some(Frame::DictExpectingKey) => {
                    assert(lq.stack.drop_last().push(Frame::DictExpectingValue) =~= base
                        + cq.stack.drop_last().push(Frame::DictExpectingValue));
                },
                _ => {},
            }
            assert(lq.advance(t).stack =~= nested(s, c).stack);
        }
    }
}

/// One whole value, written where a value is expected, has the effect of a
/// single scalar on the position around it.
pub proof fn lemma_value_in_context(s: Shape, value: Seq<Tok>)
    requires
        s.expects_value(),
        is_value(value),
    ensures
        replay_from(s, value) == Some(s.after_value()),
{
    assert(value.len() > 0);
    lemma_replay_nested(s, value);
}

/// Replaying a single token.
pub proof fn lemma_replay_one(start: Shape, t: Tok)
    ensures
        replay_from(start, seq![t]) == (if start.mismatch(t) is None {
            Some(start.advance(t))
        } else {
            None
        }),
{
    lemma_replay_push(start, Seq::empty(), t);
    assert(Seq::<Tok>::empty().push(t) =~= seq![t]);
}

/// The closing tokens lead from any reachable position to one finished value.
pub proof fn lemma_closing_finishes(s: Shape)
    requires
        s.wf(),
    ensures
        replay_from(s, closing(s)) matches Some(f) && f.finished(),
    decreases s.stack.len(), (if s.top() == Some(Frame::DictExpectingValue) { 1nat } else { 0nat }),
{
    let zero = Tok::Num(seq![48u8]);
    if s.stack.len() == 0 {
        if !s.complete {
            lemma_replay_one(s, zero);
        }
    } else if s.top() == Some(Frame::DictExpectingValue) {
        let next = s.after_value();
        lemma_closing_finishes(next);
        lemma_replay_concat(s, seq![zero], closing(next));
        lemma_replay_one(s, zero);
        assert(s.advance(zero) == next);
    } else {
        let next = s.advance(Tok::End);
        lemma_advance_wf(s, Tok::End);
        lemma_closing_finishes(next);
        lemma_replay_concat(s, seq![Tok::End], closing(next));
        lemma_replay_one(s, Tok::End);
    }
}

/// The closing tokens hold only numbers with decimal text.
pub proof fn lemma_closing_literals(s: Shape)
    ensures
        literals_ok(closing(s)),
    decreases s.stack.len(), (if s.top() == Some(Frame::DictExpectingValue) { 1nat } else { 0nat }),
{
    let zero = Tok::Num(seq![48u8]);
    assert(is_decimal(seq![48u8]));
    if s.stack.len() == 0 {
    } else if s.top() == Some(Frame::DictExpectingValue) {
        lemma_closing_literals(s.after_value());
    } else {
        lemma_closing_literals(s.advance(Tok::End));
    }
}

/// Whatever the grammar has accepted so far is the beginning of one whole
/// value: the closing tokens of the position reached complete it, and the
/// bytes so far are a prefix of that value's bytes.
pub proof fn lemma_accepted_is_prefix_of_value(ts: Seq<Tok>)
    requires
        replay(ts) is Some,
    ensures
        is_value(ts + closing(replay(ts).unwrap())),
        serialize(ts).is_prefix_of(serialize(ts + closing(replay(ts).unwrap()))),
{
    let s = replay(ts).unwrap();
    let rest = closing(s);
    lemma_replay_wf(Shape::start(), ts);
    lemma_closing_finishes(s);
    lemma_replay_concat(Shape::start(), ts, rest);
    lemma_serialize_concat(ts, rest);
    assert(serialize(ts).is_prefix_of(serialize(ts) + serialize(rest)));
}

/// Every position on the way through `ts` from `start`, the last one
/// included, has at most `max` containers open.
pub open spec fn within_depth(max: nat, start: Shape, ts: Seq<Tok>) -> bool
    decreases ts.len(),
{
    if ts.len() == 0 {
        start.stack.len() <= max
    } else {
        within_depth(max, start, ts.drop_last()) && (match replay_from(start, ts) {
            Some(s) => s.stack.len() <= max,
            None => true,
        })
    }
}

/// Tokens that the automaton takes without an error are tokens that the
/// grammar accepts, and the automaton stands where they lead.
pub proof fn lemma_run_follows_grammar(m: Machine, ts: Seq<Tok>)
    requires
        m.run(ts).error is None,
    ensures
        m.error is None,
        replay_from(m.shape, ts) == Some(m.run(ts).shape),
        m.wf() ==> within_depth(m.max_depth, m.shape, ts),
    decreases ts.len(),
{
    if ts.len() > 0 {
        let before = m.run(ts.drop_last());
        lemma_run_follows_grammar(m, ts.drop_last());
        if m.wf() {
            crate::state_tracker::lemma_run_keeps_wf(m, ts);
        }
    }
}

/// Tokens that the grammar accepts, and that never nest deeper than the
/// depth budget, are taken by the automaton without an error.
pub proof fn lemma_grammar_within_depth_runs(m: Machine, ts: Seq<Tok>)
    requires
        m.error is None,
        replay_from(m.shape, ts) is Some,
        within_depth(m.max_depth, m.shape, ts),
    ensures
        m.run(ts).error is None,
        m.run(ts).shape == replay_from(m.shape, ts).unwrap(),
        m.run(ts).max_depth == m.max_depth,
    decreases ts.len(),
{
    if ts.len() > 0 {
        lemma_grammar_within_depth_runs(m, ts.drop_last());
        let before = m.run(ts.drop_last());
        let t = ts.last();
        assert(before.shape.mismatch(t) is None);
        if t.opens() {
            assert(before.shape.advance(t).stack.len() == before.shape.stack.len() + 1);
        }
    }
}

/// A larger budget allows what a smaller one allows.
pub proof fn lemma_within_depth_grows(small: nat, large: nat, start: Shape, ts: Seq<Tok>)
    requires
        within_depth(small, start, ts),
        small <= large,
    ensures
        within_depth(large, start, ts),
    decreases ts.len(),
{
    if ts.len() > 0 {
        lemma_within_depth_grows(small, large, start, ts.drop_last());
    }
}

/// What stays within the budget ends within the budget.
pub proof fn lemma_within_depth_end(max: nat, start: Shape, ts: Seq<Tok>)
    requires
        within_depth(max, start, ts),
    ensures
        replay_from(start, ts) matches Some(s) ==> s.stack.len() <= max,
{
}

/// A concatenation stays within the budget where its first part does, and
/// its second part does from where the first part ends.
pub proof fn lemma_within_depth_concat(max: nat, start: Shape, a: Seq<Tok>, b: Seq<Tok>)
    requires
        replay_from(start, a) is Some,
    ensures
        within_depth(max, start, a + b) == (within_depth(max, start, a) && within_depth(
            max,
            replay_from(start, a).unwrap(),
            b,
        )),
    decreases b.len(),
{
    if b.len() == 0 {
        assert(a + b =~= a);
    } else {
        lemma_within_depth_concat(max, start, a, b.drop_last());
        lemma_replay_concat(start, a, b);
        assert((a + b).drop_last() =~= a + b.drop_last());
    }
}

/// Tokens that nest at most `inner` deep on their own nest at most the depth
/// of the context plus `inner` where they are written as a value.
pub proof fn lemma_nested_within_depth(s: Shape, ts: Seq<Tok>, inner: nat, max: nat)
    requires
        s.expects_value(),
        replay(ts) is Some,
        within_depth(inner, Shape::start(), ts),
        s.stack.len() + inner <= max,
    ensures
        within_depth(max, s, ts),
    decreases ts.len(),
{
    if ts.len() > 0 {
        lemma_nested_within_depth(s, ts.drop_last(), inner, max);
        lemma_replay_nested(s, ts);
    }
}

} // verus!
