//! What holds of an encoder whatever is done with it.
//!
//! Every operation of the encoder is a function of its [`EncoderView`]. The
//! lemmas here are about those functions:
//! - they keep the buffer in step with the automaton;
//! - they only ever append to the buffer;
//! - an error freezes the encoder;
//! - the bytes written so far always begin one whole value, and a finished
//!   buffer is read back as the tokens it was written from;
//! - keys that are given in order stay in order, and an unsorted dictionary
//!   writes its keys in order, the same bytes as a sorted dictionary that is
//!   given the same pairs in key order;
//! - scopes that keep the depth budget they are given cannot be used to nest
//!   deeper than the encoder's limit.
use vstd::prelude::*;
use crate::Error;
use crate::decode::{conforms, decode, lemma_ordered_value_conforms};
use crate::encoder::EncoderView;
use crate::grammar::{
    closing,
    is_value,
    lemma_accepted_is_prefix_of_value,
    lemma_closing_literals,
    lemma_replay_concat,
    lemma_replay_push,
    lemma_serialize_concat,
    lemma_serialize_push,
    lemma_nested_within_depth,
    lemma_value_in_context,
    lemma_within_depth_concat,
    lemma_within_depth_grows,
    literals_ok,
    serialize,
    within_depth,
};
use crate::order::{
    entry_tokens,
    in_order,
    latest_keys,
    lemma_closing_keeps_order,
    lemma_entries_in_order,
    lemma_entries_within_depth,
    lemma_keys_concat,
    lemma_keys_follow_shape,
    lemma_keys_push,
    lemma_value_keeps_keys,
    ordered,
};
use crate::staging::{
    distinct_keys,
    lemma_staging_sorts,
    same_entries,
    sorted,
    stage_all,
    Staged,
    StagingView,
};
use crate::state_tracker::{Frame, Shape, Tok};

verus! {

/// Offering a well-formed token keeps the buffer and the automaton in step.
pub proof fn lemma_emit_keeps_wf(v: EncoderView, t: Tok)
    requires
        v.wf(),
        t.wf(),
    ensures
        v.emit(t).wf(),
{
    if v.emit(t).machine.error is None {
        lemma_serialize_push(v.tokens, t);
        lemma_replay_push(Shape::start(), v.tokens, t);
    }
}

/// Setting the depth limit keeps the buffer and the automaton in step.
pub proof fn lemma_limit_keeps_wf(v: EncoderView, max_depth: nat)
    requires
        v.wf(),
    ensures
        v.limit(max_depth).wf(),
        v.limit(max_depth).output == v.output,
        v.limit(max_depth).tokens == v.tokens,
{
}

/// Latching an error keeps the buffer and the automaton in step.
pub proof fn lemma_latch_keeps_wf(v: EncoderView, e: Error)
    requires
        v.wf(),
    ensures
        v.latch(e).wf(),
{
}

/// Splicing in one whole value keeps the buffer and the automaton in step.
pub proof fn lemma_splice_keeps_wf(v: EncoderView, value: Seq<Tok>)
    requires
        v.wf(),
        is_value(value),
        literals_ok(value),
    ensures
        v.splice(value).wf(),
{
    if v.splice(value).machine.error is None {
        lemma_serialize_concat(v.tokens, value);
        lemma_replay_concat(Shape::start(), v.tokens, value);
        lemma_value_in_context(v.machine.shape, value);
    }
}

/// Ending a scope keeps the buffer and the automaton in step.
pub proof fn lemma_close_scope_keeps_wf(v: EncoderView, built: Result<(), Error>)
    requires
        v.wf(),
    ensures
        v.close_scope(built).wf(),
{
    lemma_emit_keeps_wf(v, Tok::End);
}

/// Merging the value scope of a dictionary pair keeps the buffer and the
/// automaton in step.
pub proof fn lemma_merge_keeps_wf(
    v: EncoderView,
    child: EncoderView,
    written: bool,
    built: Result<(), Error>,
)
    requires
        v.wf(),
        child.wf(),
    ensures
        v.merge(child, written, built).wf(),
{
    if child.machine.error is None && child.machine.shape.finished() {
        lemma_splice_keeps_wf(v, child.tokens);
    }
}

/// Writing staged entries keeps the buffer and the automaton in step.
pub proof fn lemma_flush_keeps_wf(v: EncoderView, entries: Seq<Staged>)
    requires
        v.wf(),
        forall|i: int|
            0 <= i < entries.len() ==> is_value((#[trigger] entries[i]).value) && literals_ok(
                entries[i].value,
            ),
    ensures
        v.flush(entries).wf(),
    decreases entries.len(),
{
    if entries.len() > 0 {
        let last = entries.last();
        assert forall|i: int| 0 <= i < entries.drop_last().len() implies is_value(
            (#[trigger] entries.drop_last()[i]).value,
        ) && literals_ok(entries.drop_last()[i].value) by {
            assert(entries.drop_last()[i] == entries[i]);
        }
        lemma_flush_keeps_wf(v, entries.drop_last());
        let keyed = v.flush(entries.drop_last()).emit(Tok::String(last.key));
        lemma_emit_keeps_wf(v.flush(entries.drop_last()), Tok::String(last.key));
        lemma_splice_keeps_wf(keyed, last.value);
    }
}

/// Ending the scope of an unsorted dictionary keeps the buffer and the
/// automaton in step.
pub proof fn lemma_close_staged_keeps_wf(
    v: EncoderView,
    staging: StagingView,
    built: Result<(), Error>,
)
    requires
        v.wf(),
        staging.wf(),
    ensures
        v.close_staged(staging, built).wf(),
{
    lemma_flush_keeps_wf(v, staging.entries);
    lemma_emit_keeps_wf(v.flush(staging.entries), Tok::End);
}

/// An encoder that has latched an error is frozen: whatever is done with it
/// afterwards leaves its tokens, its buffer and its error as they are, so
/// every later operation returns that same error.
pub proof fn lemma_latched_is_frozen(
    v: EncoderView,
    t: Tok,
    value: Seq<Tok>,
    e: Error,
    built: Result<(), Error>,
    child: EncoderView,
    written: bool,
    staging: StagingView,
)
    requires
        v.machine.error is Some,
    ensures
        v.emit(t) == v,
        v.splice(value) == v,
        v.latch(e) == v,
        v.limit(value.len()) == v,
        v.close_scope(built) == v,
        v.merge(child, written, built) == v,
        v.flush(staging.entries) == v,
        v.close_staged(staging, built) == v,
{
    lemma_flush_of_latched(v, staging.entries);
}

/// Writing staged entries to a latched encoder writes nothing.
proof fn lemma_flush_of_latched(v: EncoderView, entries: Seq<Staged>)
    requires
        v.machine.error is Some,
    ensures
        v.flush(entries) == v,
    decreases entries.len(),
{
    if entries.len() > 0 {
        lemma_flush_of_latched(v, entries.drop_last());
    }
}

/// The buffer only grows: every operation leaves what was written before as
/// the beginning of what is written after, and an operation that latches an
/// error on an encoder that had none writes nothing at all.
pub proof fn lemma_output_only_grows(
    v: EncoderView,
    t: Tok,
    value: Seq<Tok>,
    e: Error,
    built: Result<(), Error>,
    child: EncoderView,
    written: bool,
)
    ensures
        v.output.is_prefix_of(v.emit(t).output),
        v.emit(t).machine.error is Some ==> v.emit(t).output == v.output,
        v.output.is_prefix_of(v.splice(value).output),
        v.splice(value).machine.error is Some ==> v.splice(value).output == v.output,
        v.latch(e).output == v.output,
        v.output.is_prefix_of(v.close_scope(built).output),
        v.output.is_prefix_of(v.merge(child, written, built).output),
        v.merge(child, written, built).machine.error is Some ==> v.merge(
            child,
            written,
            built,
        ).output == v.output,
{
    assert(v.output.is_prefix_of(v.output + t.encoding()));
    assert(v.output.is_prefix_of(v.output + serialize(value)));
    assert(v.output.is_prefix_of(v.output + Tok::End.encoding()));
    assert(v.output.is_prefix_of(v.output + serialize(child.tokens)));
    assert(v.output.is_prefix_of(v.output));
}

/// Writing staged entries only appends to the buffer.
pub proof fn lemma_flush_only_grows(v: EncoderView, entries: Seq<Staged>)
    ensures
        v.output.is_prefix_of(v.flush(entries).output),
    decreases entries.len(),
{
    if entries.len() == 0 {
        assert(v.output.is_prefix_of(v.output));
    } else {
        lemma_flush_only_grows(v, entries.drop_last());
        let a = v.flush(entries.drop_last());
        let b = a.emit(Tok::String(entries.last().key));
        let c = b.splice(entries.last().value);
        assert(a.output.is_prefix_of(a.output + Tok::String(entries.last().key).encoding()));
        assert(b.output.is_prefix_of(b.output + serialize(entries.last().value)));
        assert(a.output.is_prefix_of(a.output));
        assert(b.output.is_prefix_of(b.output));
        lemma_prefix_transitive(v.output, a.output, b.output);
        lemma_prefix_transitive(v.output, b.output, c.output);
    }
}

/// A dictionary whose staging failed leaves none of its entries in the
/// buffer: only the error is latched.
pub proof fn lemma_failed_staging_writes_no_entry(
    v: EncoderView,
    staging: StagingView,
    built: Result<(), Error>,
)
    requires
        built is Err || staging.error is Some,
    ensures
        v.close_staged(staging, built).output == v.output,
        v.close_staged(staging, built).tokens == v.tokens,
        v.machine.error is None ==> v.close_staged(staging, built).machine.error == (match built {
            Err(e) => Some(e),
            Ok(_) => staging.error,
        }),
{
}

/// A pair whose value scope wrote no value latches `NoValueEmitted`, unless
/// the scope's encoder holds an error of its own, and leaves the buffer as it
/// was after the key.
pub proof fn lemma_pair_without_value(v: EncoderView, child: EncoderView, built: Result<(), Error>)
    requires
        v.machine.error is None,
        child.machine.error is None,
    ensures
        v.merge(child, false, built).machine.error == Some(Error::NoValueEmitted),
        v.merge(child, false, built).output == v.output,
        v.merge(child, false, built).tokens == v.tokens,
{
}

/// A pair whose value scope wrote one finished value is its key followed by
/// that value.
pub proof fn lemma_pair_with_value(v: EncoderView, child: EncoderView)
    requires
        child.machine.error is None,
        child.machine.shape.finished(),
    ensures
        v.merge(child, true, Ok(())) == v.splice(child.tokens),
{
}

/// An unsorted dictionary writes what a sorted dictionary writes that is
/// given the same pairs in key order: whatever the order in which pairs with
/// distinct keys were staged, closing the dictionary writes each key and its
/// value in key order, as a sorted dictionary does pair by pair.
pub proof fn lemma_unsorted_dict_equals_sorted_dict(
    v: EncoderView,
    pairs: Seq<Staged>,
    in_order: Seq<Staged>,
    remaining_depth: nat,
)
    requires
        distinct_keys(pairs),
        sorted(in_order),
        same_entries(pairs, in_order),
    ensures
        v.close_staged(
            StagingView { entries: stage_all(pairs), error: None, remaining_depth },
            Ok(()),
        ) == v.flush(in_order).emit(Tok::End),
{
    lemma_staging_sorts(pairs, in_order);
}

/// Being a prefix is transitive.
pub proof fn lemma_prefix_transitive(a: Seq<u8>, b: Seq<u8>, c: Seq<u8>)
    requires
        a.is_prefix_of(b),
        b.is_prefix_of(c),
    ensures
        a.is_prefix_of(c),
{
    assert(a =~= c.subrange(0, a.len() as int)) by {
        assert(a =~= b.subrange(0, a.len() as int));
        assert(b =~= c.subrange(0, b.len() as int));
    }
}

/// At every point the buffer holds the beginning of one whole value: there
/// are tokens that complete what was accepted so far to exactly one value,
/// and the buffer is a prefix of that value's bytes.
pub proof fn lemma_output_is_prefix_of_value(v: EncoderView)
    requires
        v.wf(),
    ensures
        is_value(v.tokens + closing(v.machine.shape)),
        literals_ok(v.tokens + closing(v.machine.shape)),
        v.output.is_prefix_of(serialize(v.tokens + closing(v.machine.shape))),
{
    lemma_accepted_is_prefix_of_value(v.tokens);
    lemma_closing_literals(v.machine.shape);
}

/// Where the automaton reports one finished value, the buffer holds exactly
/// the bytes of one whole value.
pub proof fn lemma_finished_output_is_value(v: EncoderView)
    requires
        v.wf(),
        v.machine.shape.finished(),
    ensures
        is_value(v.tokens),
        v.output == serialize(v.tokens),
{
}

/// An accepted token that is in order after the tokens so far leaves the
/// tokens in order.
pub proof fn lemma_emit_keeps_order(v: EncoderView, t: Tok)
    requires
        v.wf(),
        ordered(v.tokens),
        in_order(v.machine.shape, latest_keys(v.tokens), t),
    ensures
        ordered(v.emit(t).tokens),
{
    if v.emit(t).machine.error is None {
        lemma_keys_push(Shape::start(), Seq::empty(), v.tokens, t);
    }
}

/// One whole value whose keys are in order, spliced in, leaves the tokens in
/// order.
pub proof fn lemma_splice_keeps_order(v: EncoderView, value: Seq<Tok>)
    requires
        v.wf(),
        ordered(v.tokens),
        is_value(value),
        ordered(value),
    ensures
        ordered(v.splice(value).tokens),
{
    if v.splice(value).machine.error is None {
        lemma_keys_follow_shape(Shape::start(), Seq::empty(), v.tokens);
        lemma_keys_concat(Shape::start(), Seq::empty(), v.tokens, value);
        lemma_value_keeps_keys(v.machine.shape, latest_keys(v.tokens), value);
    }
}

/// Between two pairs of a dictionary, writing staged entries appends their
/// tokens and leaves the automaton between two pairs again.
pub proof fn lemma_flush_appends_entries(v: EncoderView, entries: Seq<Staged>)
    requires
        v.wf(),
        v.machine.error is None,
        v.machine.shape.top() == Some(Frame::DictExpectingKey),
        forall|i: int| 0 <= i < entries.len() ==> is_value((#[trigger] entries[i]).value),
    ensures
        v.flush(entries).tokens == v.tokens + entry_tokens(entries),
        v.flush(entries).machine == v.machine,
    decreases entries.len(),
{
    if entries.len() == 0 {
        assert(v.tokens + entry_tokens(entries) =~= v.tokens);
    } else {
        let front = entries.drop_last();
        let entry = entries.last();
        assert forall|i: int| 0 <= i < front.len() implies is_value(
            (#[trigger] front[i]).value,
        ) by {
            assert(front[i] == entries[i]);
        }
        lemma_flush_appends_entries(v, front);
        let a = v.flush(front);
        let b = a.emit(Tok::String(entry.key));
        let c = b.splice(entry.value);
        assert(b.machine.error is None);
        assert(c.machine.error is None);
        assert(c.machine.shape.stack =~= v.machine.shape.stack);
        assert(c.tokens =~= v.tokens + entry_tokens(entries));
    }
}

/// An unsorted dictionary whose staged values have their keys in order is
/// itself in order, wherever it is written: the encoder writes its entries
/// with strictly increasing keys.
pub proof fn lemma_staged_dict_is_in_order(v: EncoderView, staging: StagingView)
    requires
        v.wf(),
        ordered(v.tokens),
        v.emit(Tok::Dict).machine.error is None,
        staging.wf(),
        staging.error is None,
        forall|i: int|
            0 <= i < staging.entries.len() ==> ordered((#[trigger] staging.entries[i]).value),
    ensures
        v.emit(Tok::Dict).close_staged(staging, Ok(())).machine.error is None,
        v.emit(Tok::Dict).close_staged(staging, Ok(())).tokens == (v.tokens.push(Tok::Dict)
            + entry_tokens(staging.entries)).push(Tok::End),
        ordered(v.emit(Tok::Dict).close_staged(staging, Ok(())).tokens),
{
    let none = Seq::<Option<Seq<u8>>>::empty();
    let opened = v.emit(Tok::Dict);
    let entries = staging.entries;
    lemma_emit_keeps_wf(v, Tok::Dict);
    lemma_emit_keeps_order(v, Tok::Dict);
    lemma_keys_follow_shape(Shape::start(), none, v.tokens);
    lemma_keys_push(Shape::start(), none, v.tokens, Tok::Dict);
    lemma_flush_appends_entries(opened, entries);
    let keys = latest_keys(opened.tokens);
    assert(keys == latest_keys(v.tokens).push(None));
    assert(keys.last() == None::<Seq<u8>>);
    lemma_keys_follow_shape(Shape::start(), none, opened.tokens);
    lemma_entries_in_order(opened.machine.shape, keys, entries);
    lemma_keys_concat(Shape::start(), none, opened.tokens, entry_tokens(entries));
    lemma_replay_concat(Shape::start(), opened.tokens, entry_tokens(entries));
    let flushed = opened.flush(entries);
    lemma_flush_keeps_wf(opened, entries);
    lemma_keys_push(Shape::start(), none, flushed.tokens, Tok::End);
}

/// Where the keys written so far are in order, the buffer holds the
/// beginning of one whole value that conforms to the format, key order
/// included.
pub proof fn lemma_ordered_output_is_prefix_of_conforming_value(v: EncoderView)
    requires
        v.wf(),
        ordered(v.tokens),
    ensures
        conforms(serialize(v.tokens + closing(v.machine.shape))),
        v.output.is_prefix_of(serialize(v.tokens + closing(v.machine.shape))),
{
    let none = Seq::<Option<Seq<u8>>>::empty();
    let rest = closing(v.machine.shape);
    lemma_output_is_prefix_of_value(v);
    lemma_keys_follow_shape(Shape::start(), none, v.tokens);
    lemma_closing_keeps_order(v.machine.shape, latest_keys(v.tokens));
    lemma_keys_concat(Shape::start(), none, v.tokens, rest);
    lemma_ordered_value_conforms(v.tokens + rest);
}

/// Where the keys written are in order, what a finished encoder hands out
/// conforms to the format and is read back as the tokens that were accepted.
pub proof fn lemma_finished_ordered_output_conforms(v: EncoderView)
    requires
        v.wf(),
        v.machine.shape.finished(),
        ordered(v.tokens),
    ensures
        conforms(v.output),
        decode(v.output) == Some(v.tokens),
{
    lemma_ordered_value_conforms(v.tokens);
}

/// The tokens accepted so far never nested deeper than the depth limit.
pub open spec fn depth_kept(v: EncoderView) -> bool {
    within_depth(v.machine.max_depth, Shape::start(), v.tokens)
}

/// Every value staged so far nests no deeper than the depth that the
/// dictionary has left for its values.
pub open spec fn staged_depth_kept(staging: StagingView) -> bool {
    forall|i: int|
        0 <= i < staging.entries.len() ==> within_depth(
            staging.remaining_depth,
            Shape::start(),
            (#[trigger] staging.entries[i]).value,
        )
}

/// A new encoder has kept its depth limit, and so has an empty staging
/// builder.
pub proof fn lemma_fresh_keeps_depth(max_depth: nat)
    ensures
        depth_kept(EncoderView::fresh(max_depth)),
        staged_depth_kept(StagingView::empty(max_depth)),
{
}

/// A raised limit is kept where the lower one was, and a new encoder keeps
/// any limit.
pub proof fn lemma_limit_keeps_depth(v: EncoderView, max_depth: nat)
    requires
        depth_kept(v),
        v.machine.max_depth <= max_depth || v.tokens.len() == 0,
    ensures
        depth_kept(v.limit(max_depth)),
{
    if v.machine.max_depth <= max_depth {
        lemma_within_depth_grows(v.machine.max_depth, max_depth, Shape::start(), v.tokens);
    }
}

/// No token takes the encoder past its depth limit.
pub proof fn lemma_emit_keeps_depth(v: EncoderView, t: Tok)
    requires
        v.wf(),
        depth_kept(v),
    ensures
        depth_kept(v.emit(t)),
        depth_kept(v.latch(Error::DepthExceeded)),
        depth_kept(v.close_scope(Ok(()))),
{
    if v.emit(t).machine.error is None {
        lemma_replay_push(Shape::start(), v.tokens, t);
        assert(v.tokens.push(t).drop_last() =~= v.tokens);
    }
    if v.emit(Tok::End).machine.error is None {
        lemma_replay_push(Shape::start(), v.tokens, Tok::End);
        assert(v.tokens.push(Tok::End).drop_last() =~= v.tokens);
    }
}

/// A whole value that nests no deeper than what is left here does not take
/// the encoder past its depth limit.
pub proof fn lemma_splice_keeps_depth(v: EncoderView, value: Seq<Tok>, inner: nat)
    requires
        v.wf(),
        depth_kept(v),
        is_value(value),
        within_depth(inner, Shape::start(), value),
        inner <= v.machine.remaining_depth(),
    ensures
        depth_kept(v.splice(value)),
{
    if v.splice(value).machine.error is None {
        lemma_nested_within_depth(v.machine.shape, value, inner, v.machine.max_depth);
        lemma_within_depth_concat(v.machine.max_depth, Shape::start(), v.tokens, value);
    }
}

/// The value scope of a pair cannot be used to get past the depth limit: a
/// scope that kept the budget it was given, the depth that was left at the
/// pair, leaves the encoder within its own limit.
pub proof fn lemma_merge_keeps_depth(
    v: EncoderView,
    child: EncoderView,
    written: bool,
    built: Result<(), Error>,
)
    requires
        v.wf(),
        depth_kept(v),
        child.wf(),
        depth_kept(child),
        child.machine.max_depth <= v.machine.remaining_depth(),
    ensures
        depth_kept(v.merge(child, written, built)),
{
    if child.machine.error is None && child.machine.shape.finished() {
        lemma_splice_keeps_depth(v, child.tokens, child.machine.max_depth);
    }
}

/// Staging cannot be used to get past the depth limit: a value scope that
/// kept the budget it was given leaves the staged values within the depth
/// that the dictionary has left.
pub proof fn lemma_stage_keeps_depth(
    staging: StagingView,
    key: Seq<u8>,
    child: EncoderView,
    written: bool,
    built: Result<(), Error>,
)
    requires
        staged_depth_kept(staging),
        depth_kept(child),
        child.machine.max_depth <= staging.remaining_depth,
    ensures
        staged_depth_kept(staging.stage(key, child, written, built)),
{
    let after = staging.stage(key, child, written, built);
    let entry = Staged { key, value: child.tokens };
    assert forall|i: int| 0 <= i < after.entries.len() implies within_depth(
        after.remaining_depth,
        Shape::start(),
        (#[trigger] after.entries[i]).value,
    ) by {
        if after.entries != staging.entries {
            crate::staging::lemma_insert_sorted_contains(staging.entries, entry, after.entries[i]);
            assert(after.entries.contains(after.entries[i]));
            if after.entries[i] == entry {
                lemma_within_depth_grows(
                    child.machine.max_depth,
                    staging.remaining_depth,
                    Shape::start(),
                    child.tokens,
                );
            } else {
                let k = choose|k: int|
                    0 <= k < staging.entries.len() && staging.entries[k] == after.entries[i];
                assert(within_depth(
                    staging.remaining_depth,
                    Shape::start(),
                    staging.entries[k].value,
                ));
            }
        }
    }
}

/// Writing staged values that nest no deeper than what is left in their
/// dictionary does not take the encoder past its depth limit.
pub proof fn lemma_close_staged_keeps_depth(
    v: EncoderView,
    staging: StagingView,
    built: Result<(), Error>,
)
    requires
        v.wf(),
        depth_kept(v),
        !v.failed(),
        v.machine.shape.top() == Some(Frame::DictExpectingKey),
        staging.wf(),
        staged_depth_kept(staging),
        staging.remaining_depth <= v.machine.remaining_depth(),
    ensures
        depth_kept(v.close_staged(staging, built)),
{
    let entries = staging.entries;
    lemma_flush_appends_entries(v, entries);
    lemma_flush_keeps_wf(v, entries);
    lemma_entries_within_depth(
        v.machine.shape,
        entries,
        staging.remaining_depth,
        v.machine.max_depth,
    );
    lemma_within_depth_concat(v.machine.max_depth, Shape::start(), v.tokens, entry_tokens(entries));
    lemma_emit_keeps_depth(v.flush(entries), Tok::End);
}

} // verus!
