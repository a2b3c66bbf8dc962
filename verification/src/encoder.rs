//! The encoder: scoped build operations that keep the output buffer and the
//! structural automaton in step.
//!
//! An [`Encoder`] is described by its [`EncoderView`]: the tokens accepted so
//! far, the bytes written for them, and the automaton's state. Every operation
//! is a function of that view. An operation that is refused latches its error
//! and writes nothing; from then on the encoder answers every operation with
//! the same error and never changes again.
//!
//! Lists and dictionaries are written by callbacks. What such an operation
//! does depends on what its callback does, so its contract is stated over the
//! callback's own: it asks that the callback may be called on the scope it is
//! given, and it promises the outcome of closing the scope on whatever the
//! callback left behind (`call_ensures`). Nothing is asked of what a callback
//! does to its scope: an encoder is well formed whatever was done with it.
//!
//! The value of a dictionary pair is built in an encoder of its own, which
//! starts empty and is given the depth that is left at the pair. Only one
//! finished value is taken over from it; anything else latches an error and
//! leaves what was written before untouched.
use vstd::prelude::*;
use vstd::string::StringSliceAdditionalSpecFns;
use crate::Error;
use crate::decode::{decode, lemma_decode_round_trip};
use crate::grammar::{
    is_value,
    lemma_replay_concat,
    lemma_replay_push,
    lemma_serialize_concat,
    lemma_serialize_push,
    lemma_value_in_context,
    literals_ok,
    replay,
    serialize,
};
pub use crate::integer::Integer;
use crate::integer::{decimal, lemma_decimal_is_decimal, write_unsigned};
use crate::keys::{compare_keys, key_lt, lemma_key_lt_total, KeyOrder};
use crate::staging::{
    lemma_gap_has_no_key,
    lemma_insert_keeps_sorted,
    lemma_insert_sorted_at,
    Staged,
    StagingView,
};
use crate::state_tracker::{
    Frame,
    Machine,
    Shape,
    StateTracker,
    Tok,
    Token,
    DEFAULT_MAX_DEPTH,
};

verus! {

/// What an encoder has done so far.
pub struct EncoderView {
    /// The tokens that were accepted, oldest first.
    pub tokens: Seq<Tok>,
    /// The bytes in the output buffer.
    pub output: Seq<u8>,
    /// The automaton's state.
    pub machine: Machine,
}

impl EncoderView {
    /// An encoder that has written nothing.
    pub open spec fn fresh(max_depth: nat) -> EncoderView {
        EncoderView {
            tokens: Seq::empty(),
            output: Seq::empty(),
            machine: Machine::fresh(max_depth),
        }
    }

    /// The buffer holds exactly the bytes of the accepted tokens, and the
    /// automaton stands where those tokens lead.
    pub open spec fn wf(self) -> bool {
        &&& self.machine.wf()
        &&& self.output == serialize(self.tokens)
        &&& replay(self.tokens) == Some(self.machine.shape)
        &&& literals_ok(self.tokens)
    }

    /// Whether an error is latched.
    pub open spec fn failed(self) -> bool {
        self.machine.error is Some
    }

    /// The encoder after it was told to allow `max_depth` levels of nesting.
    pub open spec fn limit(self, max_depth: nat) -> EncoderView {
        EncoderView { machine: self.machine.limit(max_depth), ..self }
    }

    /// Keeps `e` as the encoder's error, unless it already holds one.
    pub open spec fn latch(self, e: Error) -> EncoderView {
        EncoderView { machine: self.machine.latch(e), ..self }
    }

    /// The encoder after one token was offered: accepted, the token's bytes
    /// are appended; refused, only the error is latched.
    pub open spec fn emit(self, t: Tok) -> EncoderView {
        let next = self.machine.observe(t);
        if next.error is Some {
            EncoderView { machine: next, ..self }
        } else {
            EncoderView {
                tokens: self.tokens.push(t),
                output: self.output + t.encoding(),
                machine: next,
            }
        }
    }

    /// The encoder after the start of a list was offered.
    pub open spec fn begin_list(self) -> EncoderView {
        self.emit(Tok::List)
    }

    /// The encoder after the start of a dictionary was offered.
    pub open spec fn begin_dict(self) -> EncoderView {
        self.emit(Tok::Dict)
    }

    /// The encoder after `key` was offered as the key of a dictionary pair.
    pub open spec fn key(self, key: Seq<u8>) -> EncoderView {
        self.emit(Tok::String(key))
    }

    /// The encoder that a value scope opened here writes to: a new one, whose
    /// depth budget is what is left here.
    pub open spec fn isolated(self) -> EncoderView {
        EncoderView::fresh(self.machine.remaining_depth())
    }

    /// The staging builder that an unsorted dictionary opened here starts
    /// from: empty, with the depth that is left here for each value.
    pub open spec fn staging(self) -> StagingView {
        StagingView::empty(self.machine.remaining_depth())
    }

    /// The encoder after one whole value, given by its tokens, was offered in
    /// one piece: the automaton sees it as a single scalar.
    pub open spec fn splice(self, value: Seq<Tok>) -> EncoderView {
        let next = self.machine.observe(Tok::Num(Seq::empty()));
        if next.error is Some {
            EncoderView { machine: next, ..self }
        } else {
            EncoderView {
                tokens: self.tokens + value,
                output: self.output + serialize(value),
                machine: next,
            }
        }
    }

    /// The encoder after a scope that was opened on it has returned `built`:
    /// the close token on success, the scope's error latched on failure.
    pub open spec fn close_scope(self, built: Result<(), Error>) -> EncoderView {
        match built {
            Ok(_) => self.emit(Tok::End),
            Err(e) => self.latch(e),
        }
    }

    /// The encoder after the value scope of a dictionary pair has ended:
    /// `child` is the isolated encoder that the scope wrote to, `written`
    /// whether the scope used its single-value builder, `built` what the
    /// scope returned. The child's latched error comes first, then a value
    /// that was never written, then the scope's own failure, then a child
    /// that is not one finished value. Only a finished value is spliced in.
    pub open spec fn merge(
        self,
        child: EncoderView,
        written: bool,
        built: Result<(), Error>,
    ) -> EncoderView {
        match child.machine.error {
            Some(e) => self.latch(e),
            None => if !written {
                self.latch(Error::NoValueEmitted)
            } else {
                match built {
                    Err(e) => self.latch(e),
                    Ok(_) => if !child.machine.shape.finished() {
                        self.latch(Error::IncompleteAtFinalize)
                    } else {
                        self.splice(child.tokens)
                    },
                }
            },
        }
    }

    /// The encoder after the staged entries were written in the order in
    /// which they stand: each key as a byte string, then its value.
    pub open spec fn flush(self, entries: Seq<Staged>) -> EncoderView
        decreases entries.len(),
    {
        if entries.len() == 0 {
            self
        } else {
            self.flush(entries.drop_last()).key(entries.last().key).splice(entries.last().value)
        }
    }

    /// The encoder after the scope of an unsorted dictionary has returned
    /// `built` and left `staging` behind: a failure of either is latched;
    /// otherwise the entries are written in key order and the dictionary is
    /// closed.
    pub open spec fn close_staged(
        self,
        staging: StagingView,
        built: Result<(), Error>,
    ) -> EncoderView {
        match built {
            Err(e) => self.latch(e),
            Ok(_) => match staging.error {
                Some(e) => self.latch(e),
                None => self.flush(staging.entries).emit(Tok::End),
            },
        }
    }

    /// What an operation that left the encoder in this state returns.
    pub open spec fn result(self) -> Result<(), Error> {
        self.machine.result()
    }
}

/// The encoder. It owns the automaton and the output buffer; the buffer only
/// ever grows, and only by the bytes of tokens that the automaton accepted.
pub struct Encoder {
    state: StateTracker,
    output: Vec<u8>,
    tokens: Ghost<Seq<Tok>>,
}

impl View for Encoder {
    type V = EncoderView;

    closed spec fn view(&self) -> EncoderView {
        EncoderView { tokens: self.tokens@, output: self.output@, machine: self.state@ }
    }
}

impl Default for Encoder {
    fn default() -> (e: Encoder)
        ensures
            e@ == EncoderView::fresh(DEFAULT_MAX_DEPTH as nat),
    {
        Encoder::new()
    }
}

impl Encoder {
    /// What holds of every encoder: the buffer holds exactly the bytes of
    /// the tokens that the automaton accepted.
    #[verifier::type_invariant]
    pub open spec fn inv(&self) -> bool {
        self@.wf()
    }

    /// Create a new encoder
    pub fn new() -> (e: Encoder)
        ensures
            e@ == EncoderView::fresh(DEFAULT_MAX_DEPTH as nat),
    {
        let state = StateTracker::new();
        Encoder { state, output: Vec::new(), tokens: Ghost(Seq::empty()) }
    }

    /// Set the max depth of the encoded object
    ///
    /// Where more containers are open already than `max_depth` allows,
    /// `DepthExceeded` is latched instead.
    pub fn with_max_depth(self, max_depth: usize) -> (e: Encoder)
        ensures
            e@ == self@.limit(max_depth as nat),
    {
        proof {
            use_type_invariant(&self);
        }
        let Encoder { mut state, output, tokens } = self;
        state.set_max_depth(max_depth);
        Encoder { state, output, tokens }
    }

    /// Moves the encoder out of `self` and leaves a new one in its place, so
    /// that the automaton, the buffer and the record of tokens can change
    /// together before they are put back.
    fn take(&mut self) -> (taken: Encoder)
        ensures
            taken == *old(self),
    {
        let mut taken = Encoder::new();
        core::mem::swap(self, &mut taken);
        taken
    }

    /// Latches `e`, unless an error is latched already, and returns the
    /// latched error.
    fn fail(&mut self, e: Error) -> (r: Result<(), Error>)
        ensures
            final(self)@ == old(self)@.latch(e),
            r == final(self)@.result(),
            r is Err,
    {
        proof {
            use_type_invariant(&*self);
        }
        let Encoder { mut state, output, tokens } = self.take();
        let r = state.latch_err(Err(e));
        *self = Encoder { state, output, tokens };
        r
    }

    /// Emit a single token to the encoder
    fn emit_token(&mut self, token: Token) -> (r: Result<(), Error>)
        requires
            token@.wf(),
        ensures
            final(self)@ == old(self)@.emit(token@),
            r == final(self)@.result(),
    {
        proof {
            use_type_invariant(&*self);
        }
        let Encoder { mut state, mut output, tokens } = self.take();
        let ghost before = output@;
        let r = state.observe_token(&token);
        let ghost mut accepted = tokens@;
        if r.is_ok() {
            match token {
                Token::List => output.push(108u8),
                Token::Dict => output.push(100u8),
                Token::String(s) => {
                    write_unsigned(&mut output, s.len() as u64);
                    output.push(58u8);
                    output.extend_from_slice(s);
                },
                Token::Num(num) => {
                    output.push(105u8);
                    output.extend_from_slice(num.as_bytes());
                    output.push(101u8);
                },
                Token::End => output.push(101u8),
            }
            proof {
                assert(output@ =~= before + token@.encoding());
                lemma_serialize_push(tokens@, token@);
                lemma_replay_push(Shape::start(), tokens@, token@);
                accepted = tokens@.push(token@);
            }
        }
        *self = Encoder { state, output, tokens: Ghost(accepted) };
        r
    }

    /// Emit an integer
    pub fn emit_int<T: Integer>(&mut self, value: T) -> (r: Result<(), Error>)
        ensures
            final(self)@ == old(self)@.emit(Tok::Num(decimal(value.as_int()))),
            r == final(self)@.result(),
    {
        proof {
            use_type_invariant(&*self);
        }
        let ghost token = Tok::Num(decimal(value.as_int()));
        let Encoder { mut state, mut output, tokens } = self.take();
        let ghost before = output@;
        // The automaton looks at a number's kind only, never at its text.
        let r = state.observe_token(&Token::Num(""));
        let ghost mut accepted = tokens@;
        if r.is_ok() {
            output.push(105u8);
            value.write_to(&mut output);
            output.push(101u8);
            proof {
                assert(output@ =~= before + token.encoding());
                lemma_decimal_is_decimal(value.as_int());
                lemma_serialize_push(tokens@, token);
                lemma_replay_push(Shape::start(), tokens@, token);
                accepted = tokens@.push(token);
            }
        }
        *self = Encoder { state, output, tokens: Ghost(accepted) };
        r
    }

    /// Emit a string
    pub fn emit_str(&mut self, value: &str) -> (r: Result<(), Error>)
        ensures
            final(self)@ == old(self)@.emit(Tok::String(value.spec_bytes())),
            r == final(self)@.result(),
    {
        self.emit_token(Token::String(value.as_bytes()))
    }

    /// Emit a byte array
    pub fn emit_bytes(&mut self, value: &[u8]) -> (r: Result<(), Error>)
        ensures
            final(self)@ == old(self)@.emit(Tok::String(value@)),
            r == final(self)@.result(),
    {
        self.emit_token(Token::String(value))
    }

    /// Emit an arbitrary list. The callback should emit the contents
    /// of the list to the given encoder.
    ///
    /// The list is opened, the callback runs on this same encoder, and the
    /// list is closed. Where the callback fails, nothing is closed and its
    /// error is latched.
    pub fn emit_list<F>(&mut self, list_cb: F) -> (r: Result<(), Error>) where
        F: FnOnce(&mut Encoder) -> Result<(), Error>,

        requires
            !old(self)@.begin_list().failed() ==> forall|e: &mut Encoder|
                e@ == old(self)@.begin_list() ==> call_requires(list_cb, (e,)),
        ensures
            old(self)@.begin_list().failed() ==> final(self)@ == old(self)@.begin_list(),
            !old(self)@.begin_list().failed() ==> exists|
                e: &mut Encoder,
                built: Result<(), Error>,
            |
                e@ == old(self)@.begin_list() && #[trigger] call_ensures(list_cb, (e,), built)
                    && final(self)@ == final(e)@.close_scope(built),
            r == final(self)@.result(),
    {
        if let Err(e) = self.emit_token(Token::List) {
            return Err(e);
        }
        match list_cb(self) {
            Ok(()) => self.emit_token(Token::End),
            Err(e) => self.fail(e),
        }
    }

    /// Return the encoded string, if all objects written are complete
    ///
    /// That is: if no error is latched, exactly one top-level value was
    /// written, and nothing is open. The bytes are then those of one whole
    /// value, and a reader of the format reads them back as the tokens that
    /// were written. Otherwise the latched error is returned, or
    /// `IncompleteAtFinalize` where there is none.
    pub fn get_output(self) -> (r: Result<Vec<u8>, Error>)
        ensures
            match r {
                Ok(bytes) => {
                    &&& self@.machine.error is None
                    &&& self@.machine.shape.finished()
                    &&& bytes@ == self@.output
                    &&& bytes@ == serialize(self@.tokens)
                    &&& is_value(self@.tokens)
                    &&& literals_ok(self@.tokens)
                    &&& decode(bytes@) == Some(self@.tokens)
                },
                Err(e) => self@.machine.observe_eof().error == Some(e),
            },
    {
        proof {
            use_type_invariant(&self);
            if !self@.failed() && self@.machine.shape.finished() {
                lemma_decode_round_trip(self@.tokens);
            }
        }
        let Encoder { mut state, output, tokens } = self;
        match state.observe_eof() {
            Ok(()) => Ok(output),
            Err(e) => Err(e),
        }
    }
}

impl Encoder {
    /// Appends one whole, already encoded value: the automaton is shown a
    /// single scalar, and the bytes are appended as they are.
    fn splice(&mut self, bytes: &[u8], Ghost(value): Ghost<Seq<Tok>>) -> (r: Result<(), Error>)
        requires
            bytes@ == serialize(value),
            is_value(value),
            literals_ok(value),
        ensures
            final(self)@ == old(self)@.splice(value),
            r == final(self)@.result(),
    {
        proof {
            use_type_invariant(&*self);
        }
        let Encoder { mut state, mut output, tokens } = self.take();
        let ghost before = state@.shape;
        // We know that the bytes are a single object by construction
        let r = state.observe_token(&Token::Num(""));
        let ghost mut accepted = tokens@;
        if r.is_ok() {
            output.extend_from_slice(bytes);
            proof {
                accepted = tokens@ + value;
                assert(output@ =~= serialize(tokens@) + serialize(value));
                lemma_serialize_concat(tokens@, value);
                lemma_replay_concat(Shape::start(), tokens@, value);
                lemma_value_in_context(before, value);
                assert(state@.shape == before.after_value());
            }
        }
        *self = Encoder { state, output, tokens: Ghost(accepted) };
        r
    }

    /// Merges the isolated encoder of a dictionary pair's value back into
    /// this one: its error is latched here, or its one value is appended.
    fn absorb(&mut self, child: Encoder, written: bool, built: Result<(), Error>) -> (r: Result<
        (),
        Error,
    >)
        ensures
            final(self)@ == old(self)@.merge(child@, written, built),
            r == final(self)@.result(),
    {
        proof {
            use_type_invariant(&child);
        }
        if let Err(e) = child.state.check_error() {
            return self.fail(e);
        }
        if !written {
            return self.fail(Error::NoValueEmitted);
        }
        if let Err(e) = built {
            return self.fail(e);
        }
        let ghost value = child@.tokens;
        match child.get_output() {
            Ok(bytes) => self.splice(bytes.as_slice(), Ghost(value)),
            Err(e) => self.fail(e),
        }
    }

    /// Emit a dictionary where you know that the keys are already
    /// sorted.  The callback must emit key/value pairs to the given
    /// encoder in sorted order.  If the key/value pairs may not be
    /// sorted, [`Encoder::emit_unsorted_dict()`] should be used
    /// instead.
    ///
    /// The order of the keys is not checked.
    pub fn emit_dict<F>(&mut self, content_cb: F) -> (r: Result<(), Error>) where
        F: FnOnce(SortedDictEncoder) -> Result<(), Error>,

        requires
            !old(self)@.begin_dict().failed() ==> forall|d: SortedDictEncoder|
                d@ == old(self)@.begin_dict() ==> call_requires(content_cb, (d,)),
        ensures
            old(self)@.begin_dict().failed() ==> final(self)@ == old(self)@.begin_dict(),
            !old(self)@.begin_dict().failed() ==> exists|
                d: SortedDictEncoder,
                built: Result<(), Error>,
            |
                d@ == old(self)@.begin_dict() && #[trigger] call_ensures(content_cb, (d,), built)
                    && final(self)@ == (*final(d.target()))@.close_scope(built),
            r == final(self)@.result(),
    {
        if let Err(e) = self.emit_token(Token::Dict) {
            return Err(e);
        }
        let scope = SortedDictEncoder { encoder: self };
        assert(scope@ == old(self)@.begin_dict());
        match content_cb(scope) {
            Ok(()) => self.emit_token(Token::End),
            Err(e) => self.fail(e),
        }
    }

    /// Emit a dictionary that may have keys out of order. This will write the dict
    /// values to temporary memory, then sort them before adding them to the serialized
    /// stream
    pub fn emit_unsorted_dict<F>(&mut self, content_cb: F) -> (r: Result<(), Error>) where
        F: FnOnce(&mut UnsortedDictEncoder) -> Result<(), Error>,

        requires
            !old(self)@.begin_dict().failed() ==> forall|u: &mut UnsortedDictEncoder|
                u@ == old(self)@.begin_dict().staging() ==> call_requires(content_cb, (u,)),
        ensures
            old(self)@.begin_dict().failed() ==> final(self)@ == old(self)@.begin_dict(),
            !old(self)@.begin_dict().failed() ==> exists|
                u: &mut UnsortedDictEncoder,
                built: Result<(), Error>,
            |
                u@ == old(self)@.begin_dict().staging() && #[trigger] call_ensures(
                    content_cb,
                    (u,),
                    built,
                ) && final(u)@.wf() && final(self)@ == old(self)@.begin_dict().close_staged(
                    final(u)@,
                    built,
                ),
            r == final(self)@.result(),
    {
        // emit the dict token so that a pre-existing state error is reported early
        if let Err(e) = self.emit_token(Token::Dict) {
            return Err(e);
        }
        proof {
            use_type_invariant(&*self);
        }
        let ghost opened = self@;
        let mut staging = UnsortedDictEncoder::empty(self.state.remaining_depth());
        let built = content_cb(&mut staging);
        proof {
            use_type_invariant(&staging);
        }
        if let Err(e) = built {
            return self.fail(e);
        }
        if let Some(e) = staging.error {
            return self.fail(e);
        }
        let ghost entries = staging@.entries;
        let n = staging.content.len();
        let mut i: usize = 0;
        while i < n
            invariant
                n == staging.content.len(),
                staging.inv(),
                entries == staging@.entries,
                0 <= i <= n,
                self@ == opened.flush(entries.take(i as int)),
                !self@.failed(),
                self@.machine.shape.top() == Some(Frame::DictExpectingKey),
            decreases n - i,
        {
            let ghost before = self@;
            let entry = &staging.content[i];
            assert(entries[i as int].key == entry.key@);
            assert(is_value(entries[i as int].value) && literals_ok(entries[i as int].value));
            if let Err(e) = self.emit_bytes(entry.key.as_slice()) {
                return Err(e);
            }
            if let Err(e) = self.splice(entry.value.as_slice(), Ghost(entries[i as int].value)) {
                return Err(e);
            }
            proof {
                let upto = entries.take(i + 1);
                assert(upto.drop_last() =~= entries.take(i as int));
                assert(upto.last() == entries[i as int]);
            }
            i += 1;
        }
        assert(entries.take(n as int) =~= entries);
        self.emit_token(Token::End)
    }
}

/// An encoder that can only encode a single item.  See [`Encoder`]
/// for usage examples; the only difference between these classes is
/// that SingleItemEncoder can only be used once.
///
/// Its view is the view of the encoder that the item goes to, as it is now.
/// What that encoder is in the end is `*final(self.target())`; whether the
/// builder was used is `*final(self.flag())`.
pub struct SingleItemEncoder<'a> {
    encoder: &'a mut Encoder,
    value_written: &'a mut bool,
}

impl<'a> View for SingleItemEncoder<'a> {
    type V = EncoderView;

    closed spec fn view(&self) -> EncoderView {
        (*self.encoder)@
    }
}

impl<'a> SingleItemEncoder<'a> {
    /// The encoder that the one value goes to.
    pub closed spec fn target(&self) -> &mut Encoder {
        self.encoder
    }

    /// The flag that records that this builder was used.
    pub closed spec fn flag(&self) -> &mut bool {
        self.value_written
    }

    /// The view is the view of the target.
    pub proof fn lemma_view(&self)
        ensures
            self@ == self.target()@,
    {
    }

    /// A builder that is dropped unused leaves its encoder and its flag as
    /// they are.
    pub proof fn lemma_released(&self)
        requires
            has_resolved(*self),
        ensures
            (*final(self.target()))@ == self@,
            *final(self.flag()) == *self.flag(),
    {
    }

    /// Emit an integer
    pub fn emit_int<T: Integer>(self, value: T) -> (r: Result<(), Error>)
        ensures
            *final(self.flag()),
            (*final(self.target()))@ == self@.emit(Tok::Num(decimal(value.as_int()))),
            r == (*final(self.target()))@.result(),
    {
        *self.value_written = true;
        self.encoder.emit_int(value)
    }

    /// Emit a string
    pub fn emit_str(self, value: &str) -> (r: Result<(), Error>)
        ensures
            *final(self.flag()),
            (*final(self.target()))@ == self@.emit(Tok::String(value.spec_bytes())),
            r == (*final(self.target()))@.result(),
    {
        *self.value_written = true;
        self.encoder.emit_str(value)
    }

    /// Emit a byte array
    pub fn emit_bytes(self, value: &[u8]) -> (r: Result<(), Error>)
        ensures
            *final(self.flag()),
            (*final(self.target()))@ == self@.emit(Tok::String(value@)),
            r == (*final(self.target()))@.result(),
    {
        *self.value_written = true;
        self.encoder.emit_bytes(value)
    }

    /// Emit an arbitrary list
    pub fn emit_list<F>(self, list_cb: F) -> (r: Result<(), Error>) where
        F: FnOnce(&mut Encoder) -> Result<(), Error>,

        requires
            !self@.begin_list().failed() ==> forall|e: &mut Encoder|
                e@ == self@.begin_list() ==> call_requires(list_cb, (e,)),
        ensures
            *final(self.flag()),
            self@.begin_list().failed() ==> (*final(self.target()))@ == self@.begin_list(),
            !self@.begin_list().failed() ==> exists|e: &mut Encoder, built: Result<(), Error>|
                e@ == self@.begin_list() && #[trigger] call_ensures(list_cb, (e,), built)
                    && (*final(self.target()))@ == final(e)@.close_scope(built),
            r == (*final(self.target()))@.result(),
    {
        *self.value_written = true;
        self.encoder.emit_list(list_cb)
    }

    /// Emit a sorted dictionary. If the input dictionary is unsorted, use
    /// [`SingleItemEncoder::emit_unsorted_dict()`] instead.
    pub fn emit_dict<F>(self, content_cb: F) -> (r: Result<(), Error>) where
        F: FnOnce(SortedDictEncoder) -> Result<(), Error>,

        requires
            !self@.begin_dict().failed() ==> forall|d: SortedDictEncoder|
                d@ == self@.begin_dict() ==> call_requires(content_cb, (d,)),
        ensures
            *final(self.flag()),
            self@.begin_dict().failed() ==> (*final(self.target()))@ == self@.begin_dict(),
            !self@.begin_dict().failed() ==> exists|d: SortedDictEncoder, built: Result<(), Error>|
                d@ == self@.begin_dict() && #[trigger] call_ensures(content_cb, (d,), built)
                    && (*final(self.target()))@ == (*final(d.target()))@.close_scope(built),
            r == (*final(self.target()))@.result(),
    {
        *self.value_written = true;
        self.encoder.emit_dict(content_cb)
    }

    /// Emit a dictionary that may have keys out of order. This will write the dict
    /// values to temporary memory, then sort them before adding them to the serialized
    /// stream
    pub fn emit_unsorted_dict<F>(self, content_cb: F) -> (r: Result<(), Error>) where
        F: FnOnce(&mut UnsortedDictEncoder) -> Result<(), Error>,

        requires
            !self@.begin_dict().failed() ==> forall|u: &mut UnsortedDictEncoder|
                u@ == self@.begin_dict().staging() ==> call_requires(content_cb, (u,)),
        ensures
            *final(self.flag()),
            self@.begin_dict().failed() ==> (*final(self.target()))@ == self@.begin_dict(),
            !self@.begin_dict().failed() ==> exists|
                u: &mut UnsortedDictEncoder,
                built: Result<(), Error>,
            |
                u@ == self@.begin_dict().staging() && #[trigger] call_ensures(
                    content_cb,
                    (u,),
                    built,
                ) && final(u)@.wf() && (*final(self.target()))@ == self@.begin_dict().close_staged(
                    final(u)@,
                    built,
                ),
            r == (*final(self.target()))@.result(),
    {
        *self.value_written = true;
        self.encoder.emit_unsorted_dict(content_cb)
    }
}

/// Encodes a map with pre-sorted keys
///
/// Its view is the view of the encoder that the pairs go to, as it is now.
/// What that encoder is in the end is `*final(self.target())`.
pub struct SortedDictEncoder<'a> {
    encoder: &'a mut Encoder,
}

impl<'a> View for SortedDictEncoder<'a> {
    type V = EncoderView;

    closed spec fn view(&self) -> EncoderView {
        (*self.encoder)@
    }
}

impl<'a> SortedDictEncoder<'a> {
    /// The encoder that the pairs go to.
    pub closed spec fn target(&self) -> &mut Encoder {
        self.encoder
    }

    /// The view is the view of the target.
    pub proof fn lemma_view(&self)
        ensures
            self@ == self.target()@,
    {
    }

    /// A builder that is not used any more leaves its encoder as it is.
    pub proof fn lemma_released(&self)
        requires
            has_resolved(*self),
        ensures
            (*final(self.target()))@ == self@,
    {
    }

    /// Emit a key/value pair
    ///
    /// The key is written first. The value is built by `value_cb` in an
    /// isolated encoder that is given the depth that is left here; only one
    /// finished value is taken over from it. The order of the keys is not
    /// checked.
    pub fn emit_pair<F>(&mut self, key: &[u8], value_cb: F) -> (r: Result<(), Error>) where
        F: FnOnce(SingleItemEncoder) -> Result<(), Error>,

        requires
            !old(self)@.key(key@).failed() ==> forall|s: SingleItemEncoder|
                s@ == old(self)@.key(key@).isolated() && !*s.flag() ==> call_requires(
                    value_cb,
                    (s,),
                ),
        ensures
            *final(final(self).target()) == *final(old(self).target()),
            old(self)@.key(key@).failed() ==> final(self)@ == old(self)@.key(key@),
            !old(self)@.key(key@).failed() ==> exists|
                s: SingleItemEncoder,
                built: Result<(), Error>,
            |
                s@ == old(self)@.key(key@).isolated() && !*s.flag() && #[trigger] call_ensures(
                    value_cb,
                    (s,),
                    built,
                ) && final(self)@ == old(self)@.key(key@).merge(
                    (*final(s.target()))@,
                    *final(s.flag()),
                    built,
                ),
            r == final(self)@.result(),
    {
        if let Err(e) = self.encoder.emit_token(Token::String(key)) {
            return Err(e);
        }
        proof {
            use_type_invariant(&*self.encoder);
        }
        let mut value_written = false;
        let mut child = Encoder::new().with_max_depth(self.encoder.state.remaining_depth());
        let scope = SingleItemEncoder { encoder: &mut child, value_written: &mut value_written };
        assert(scope@ == old(self)@.key(key@).isolated() && !*scope.flag());
        let built = value_cb(scope);
        self.encoder.absorb(child, value_written, built)
    }
}

/// One staged entry: the key, and the bytes of its value.
struct Entry {
    key: Vec<u8>,
    value: Vec<u8>,
}

/// Helper to write a dictionary that may have keys out of order. This will buffer the
/// dict values in temporary memory, then sort them before adding them to the serialized
/// stream
pub struct UnsortedDictEncoder {
    content: Vec<Entry>,
    error: Option<Error>,
    remaining_depth: usize,
    values: Ghost<Seq<Seq<Tok>>>,
}

impl View for UnsortedDictEncoder {
    type V = StagingView;

    closed spec fn view(&self) -> StagingView {
        StagingView {
            entries: Seq::new(
                self.content@.len(),
                |i: int| Staged { key: self.content@[i].key@, value: self.values@[i] },
            ),
            error: self.error,
            remaining_depth: self.remaining_depth as nat,
        }
    }
}

/// Where `key` stands among keys in increasing order: the number of entries
/// that do not come after it, and whether the last of those holds `key` itself.
fn locate(content: &Vec<Entry>, key: &[u8]) -> (r: (usize, bool))
    ensures
        r.0 <= content@.len(),
        forall|j: int| r.0 <= j < content@.len() ==> key_lt(key@, (#[trigger] content@[j]).key@),
        r.1 ==> r.0 > 0 && content@[r.0 - 1].key@ == key@,
        !r.1 && r.0 > 0 ==> key_lt(content@[r.0 - 1].key@, key@),
{
    let mut i = content.len();
    while i > 0
        invariant
            i <= content@.len(),
            forall|j: int| i <= j < content@.len() ==> key_lt(key@, (#[trigger] content@[j]).key@),
        decreases i,
    {
        match compare_keys(key, content[i - 1].key.as_slice()) {
            KeyOrder::Before => {
                i -= 1;
            },
            KeyOrder::Same => {
                return (i, true);
            },
            KeyOrder::After => {
                return (i, false);
            },
        }
    }
    (0, false)
}

impl UnsortedDictEncoder {
    /// What holds of every builder: the entries are in key order, and each
    /// holds the bytes of one whole value.
    #[verifier::type_invariant]
    closed spec fn inv(&self) -> bool {
        &&& self.values@.len() == self.content@.len()
        &&& forall|i: int|
            0 <= i < self.content@.len() ==> (#[trigger] self.content@[i]).value@ == serialize(
                self.values@[i],
            )
        &&& self@.wf()
    }

    /// A builder that holds nothing, for values of the given depth.
    fn empty(remaining_depth: usize) -> (u: UnsortedDictEncoder)
        ensures
            u@ == StagingView::empty(remaining_depth as nat),
    {
        let u = UnsortedDictEncoder {
            content: Vec::new(),
            error: None,
            remaining_depth,
            values: Ghost(Seq::empty()),
        };
        assert(u@.entries =~= Seq::empty());
        u
    }

    /// Moves the builder out of `self` and leaves an empty one in its place,
    /// so that the entries and the record of their tokens can change together
    /// before they are put back.
    fn take(&mut self) -> (taken: UnsortedDictEncoder)
        ensures
            taken == *old(self),
    {
        proof {
            use_type_invariant(&*self);
        }
        let mut taken = UnsortedDictEncoder::empty(self.remaining_depth);
        core::mem::swap(self, &mut taken);
        taken
    }

    /// Keeps `e` as the builder's error and returns it.
    fn fail(&mut self, e: Error) -> (r: Result<(), Error>)
        requires
            old(self)@.error is None,
        ensures
            final(self)@ == old(self)@.fail(e),
            r == final(self)@.result(),
    {
        proof {
            use_type_invariant(&*self);
        }
        self.error = Some(e);
        Err(e)
    }

    /// Emit a key/value pair
    ///
    /// A key that is staged already is refused with `DuplicateKey`. Otherwise
    /// the value is built by `value_cb` in an encoder of its own, which is
    /// given the depth that is left in the dictionary; the value is staged
    /// only where that encoder ends as one finished value. The first failure
    /// stays: every later call returns it and stages nothing.
    pub fn emit_pair<F>(&mut self, key: &[u8], value_cb: F) -> (r: Result<(), Error>) where
        F: FnOnce(SingleItemEncoder) -> Result<(), Error>,

        requires
            old(self)@.error is None && !old(self)@.has_key(key@) ==> forall|s: SingleItemEncoder|
                s@ == old(self)@.isolated() && !*s.flag() ==> call_requires(value_cb, (s,)),
        ensures
            final(self)@.wf(),
            old(self)@.error is Some ==> final(self)@ == old(self)@,
            old(self)@.error is None && old(self)@.has_key(key@) ==> final(self)@
                == old(self)@.fail(Error::DuplicateKey),
            old(self)@.error is None && !old(self)@.has_key(key@) ==> exists|
                s: SingleItemEncoder,
                built: Result<(), Error>,
            |
                s@ == old(self)@.isolated() && !*s.flag() && #[trigger] call_ensures(
                    value_cb,
                    (s,),
                    built,
                ) && final(self)@ == old(self)@.stage(
                    key@,
                    (*final(s.target()))@,
                    *final(s.flag()),
                    built,
                ),
            r == final(self)@.result(),
    {
        proof {
            use_type_invariant(&*self);
        }
        if let Some(e) = self.error {
            return Err(e);
        }
        let (at, found) = locate(&self.content, key);
        let ghost before = self@;
        if found {
            assert(before.entries[at - 1].key == key@);
            return self.fail(Error::DuplicateKey);
        }
        proof {
            assert forall|j: int| at <= j < before.entries.len() implies key_lt(
                key@,
                (#[trigger] before.entries[j]).key,
            ) by {
                assert(before.entries[j].key == self.content@[j].key@);
            }
            if at > 0 {
                assert(before.entries[at - 1].key == self.content@[at - 1].key@);
                lemma_key_lt_total(before.entries[at - 1].key, key@);
            }
            lemma_gap_has_no_key(before.entries, key@, at as int);
        }
        let mut value_written = false;
        let mut child = Encoder::new().with_max_depth(self.remaining_depth);
        let scope = SingleItemEncoder { encoder: &mut child, value_written: &mut value_written };
        assert(scope@ == before.isolated() && !*scope.flag());
        let built = value_cb(scope);
        if let Err(e) = built {
            return self.fail(e);
        }
        if !value_written {
            return self.fail(Error::NoValueEmitted);
        }
        let ghost value = child@.tokens;
        match child.get_output() {
            Err(e) => self.fail(e),
            Ok(bytes) => {
                let UnsortedDictEncoder { mut content, error, remaining_depth, values } =
                    self.take();
                let ghost held = content@;
                content.insert(at, Entry { key: vstd::slice::slice_to_vec(key), value: bytes });
                let ghost staged = values@.insert(at as int, value);
                proof {
                    let entry = Staged { key: key@, value };
                    let entries = Seq::new(
                        content@.len(),
                        |i: int| Staged { key: content@[i].key@, value: staged[i] },
                    );
                    assert(entries =~= before.entries.insert(at as int, entry));
                    lemma_insert_sorted_at(before.entries, entry, at as int);
                    lemma_insert_keeps_sorted(before.entries, entry, at as int);
                    assert forall|i: int| 0 <= i < content@.len() implies (
                    #[trigger] content@[i]).value@ == serialize(staged[i]) by {
                        if i < at {
                            assert(content@[i] == held[i]);
                        } else if i > at {
                            assert(content@[i] == held[i - 1]);
                        }
                    }
                    assert forall|i: int| 0 <= i < entries.len() implies is_value(
                        (#[trigger] entries[i]).value,
                    ) && literals_ok(entries[i].value) by {
                        if i < at {
                            assert(entries[i] == before.entries[i]);
                        } else if i > at {
                            assert(entries[i] == before.entries[i - 1]);
                        }
                    }
                }
                *self =
                UnsortedDictEncoder { content, error, remaining_depth, values: Ghost(staged) };
                Ok(())
            },
        }
    }
}

} // verus!
