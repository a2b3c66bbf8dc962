//! The structural automaton: a depth-bounded push-down machine over tokens.
//!
//! [`Shape`] is a position in the grammar (the open containers and whether the
//! top-level value is complete). [`Machine`] adds the depth budget and the
//! latched error. [`StateTracker`] is the executable automaton; its view is a
//! [`Machine`] and every method is described by a function of that model.
use vstd::prelude::*;
use vstd::string::StringSliceAdditionalSpecFns;
use crate::Error;

verus! {

/// The depth limit of an automaton that was not given one.
pub const DEFAULT_MAX_DEPTH: usize = 2048;

/// One open container, together with what it expects next.
#[derive(Clone, Copy, Debug, PartialEq, Eq, Structural)]
pub enum Frame {
    /// Inside a list: any value, or the close, may follow.
    List,
    /// Inside a dictionary, between pairs: a key, or the close, may follow.
    DictExpectingKey,
    /// Inside a dictionary, after a key: exactly one value must follow.
    DictExpectingValue,
}

/// A token as the model sees it. Scalars carry the bytes they stand for: the
/// raw content of a byte string, the literal text of a number.
pub enum Tok {
    /// The start of a list.
    List,
    /// The start of a dictionary.
    Dict,
    /// A byte string, with its content.
    String(Seq<u8>),
    /// A number, with its literal text.
    Num(Seq<u8>),
    /// The end of a list or dictionary.
    End,
}

impl Tok {
    /// Whether the token opens a container.
    pub open spec fn opens(self) -> bool {
        self is List || self is Dict
    }

    /// The frame that an opening token pushes.
    pub open spec fn opened_frame(self) -> Frame {
        if self is List {
            Frame::List
        } else {
            Frame::DictExpectingKey
        }
    }
}

/// A token handed to the automaton. It lives for one observation only.
#[derive(Clone, Copy, Debug)]
pub enum Token<'a> {
    /// The start of a list.
    List,
    /// The start of a dictionary.
    Dict,
    /// A byte string, with its content.
    String(&'a [u8]),
    /// A number, with its literal text.
    Num(&'a str),
    /// The end of a list or dictionary.
    End,
}

impl<'a> View for Token<'a> {
    type V = Tok;

    open spec fn view(&self) -> Tok {
        match *self {
            Token::List => Tok::List,
            Token::Dict => Tok::Dict,
            Token::String(s) => Tok::String(s@),
            Token::Num(n) => Tok::Num(n.spec_bytes()),
            Token::End => Tok::End,
        }
    }
}

/// A position in the grammar: the containers that are open, innermost last,
/// and whether the one top-level value has been completed.
pub struct Shape {
    pub stack: Seq<Frame>,
    pub complete: bool,
}

impl Shape {
    /// The position before any token.
    pub open spec fn start() -> Shape {
        Shape { stack: Seq::empty(), complete: false }
    }

    /// What holds of every position that tokens can lead to: a completed value
    /// leaves nothing open, and only the innermost dictionary can be waiting
    /// for a value.
    pub open spec fn wf(self) -> bool {
        &&& self.complete ==> self.stack.len() == 0
        &&& forall|i: int|
            0 <= i < self.stack.len() - 1 ==> self.stack[i] != Frame::DictExpectingValue
    }

    /// The innermost open container.
    pub open spec fn top(self) -> Option<Frame> {
        if self.stack.len() == 0 {
            None
        } else {
            Some(self.stack.last())
        }
    }

    /// Whether a value may start here.
    pub open spec fn expects_value(self) -> bool {
        match self.top() {
            None => !self.complete,
            Some(Frame::List) => true,
            Some(Frame::DictExpectingKey) => false,
            Some(Frame::DictExpectingValue) => true,
        }
    }

    /// Whether exactly one top-level value has been completed and nothing is open.
    pub open spec fn finished(self) -> bool {
        self.complete && self.stack.len() == 0
    }

    /// The reason for which the grammar refuses `t` at this position, if it does.
    pub open spec fn mismatch(self, t: Tok) -> Option<Error> {
        match self.top() {
            None => if self.complete {
                Some(Error::ExtraTopLevelValue)
            } else if t is End {
                Some(Error::UnexpectedToken)
            } else {
                None
            },
            Some(Frame::List) => None,
            Some(Frame::DictExpectingKey) => if t is String || t is End {
                None
            } else {
                Some(Error::UnexpectedToken)
            },
            Some(Frame::DictExpectingValue) => if t is End {
                Some(Error::UnexpectedToken)
            } else {
                None
            },
        }
    }

    /// The open containers once the innermost one has been given its value:
    /// a dictionary that waited for a value goes back to waiting for a key.
    pub open spec fn settled(self) -> Seq<Frame> {
        match self.top() {
            Some(Frame::DictExpectingValue) => self.stack.drop_last().push(
                Frame::DictExpectingKey,
            ),
            _ => self.stack,
        }
    }

    /// The position after one whole value was written at a position that
    /// expected one.
    pub open spec fn after_value(self) -> Shape {
        Shape { stack: self.settled(), complete: self.stack.len() == 0 }
    }

    /// The position after `t`, where the grammar accepts `t` here.
    pub open spec fn advance(self, t: Tok) -> Shape {
        if t.opens() {
            Shape { stack: self.settled().push(t.opened_frame()), complete: false }
        } else if t is End {
            Shape { stack: self.stack.drop_last(), complete: self.stack.len() == 1 }
        } else {
            match self.top() {
                Some(Frame::DictExpectingKey) => Shape {
                    stack: self.stack.drop_last().push(Frame::DictExpectingValue),
                    complete: false,
                },
                _ => self.after_value(),
            }
        }
    }
}

/// The automaton's whole state: a position, the depth budget, and the first
/// error, if there was one.
pub struct Machine {
    pub shape: Shape,
    pub max_depth: nat,
    pub error: Option<Error>,
}

impl Machine {
    /// A machine that has seen nothing.
    pub open spec fn fresh(max_depth: nat) -> Machine {
        Machine { shape: Shape::start(), max_depth, error: None }
    }

    /// The position is reachable and within the depth budget.
    pub open spec fn wf(self) -> bool {
        &&& self.shape.wf()
        &&& self.shape.stack.len() <= self.max_depth
    }

    /// The current nesting depth.
    pub open spec fn depth(self) -> nat {
        self.shape.stack.len()
    }

    /// How many more containers may be nested inside the innermost open one.
    pub open spec fn remaining_depth(self) -> nat {
        (self.max_depth - self.shape.stack.len()) as nat
    }

    /// The error with which a machine that has none latched answers `t`, if it
    /// refuses it: the grammar's reason first, then the depth budget.
    pub open spec fn verdict(self, t: Tok) -> Option<Error> {
        match self.shape.mismatch(t) {
            Some(e) => Some(e),
            None => if t.opens() && self.shape.stack.len() >= self.max_depth {
                Some(Error::DepthExceeded)
            } else {
                None
            },
        }
    }

    /// Keeps `e` as the machine's error, unless it already holds one.
    pub open spec fn latch(self, e: Error) -> Machine {
        if self.error is Some {
            self
        } else {
            Machine { error: Some(e), ..self }
        }
    }

    /// The machine after it was told to allow `max_depth` levels of nesting. A
    /// latched machine does not change. A limit that the open containers
    /// already exceed cannot be kept, and latches `DepthExceeded`.
    pub open spec fn limit(self, max_depth: nat) -> Machine {
        if self.error is Some {
            self
        } else if self.shape.stack.len() <= max_depth {
            Machine { max_depth, ..self }
        } else {
            self.latch(Error::DepthExceeded)
        }
    }

    /// The machine after it was shown `t`. A latched machine does not move; a
    /// refused token latches its error and leaves the position as it was.
    pub open spec fn observe(self, t: Tok) -> Machine {
        if self.error is Some {
            self
        } else {
            match self.verdict(t) {
                Some(e) => self.latch(e),
                None => Machine { shape: self.shape.advance(t), ..self },
            }
        }
    }

    /// The machine after it was shown the tokens of `ts`, one after another.
    pub open spec fn run(self, ts: Seq<Tok>) -> Machine
        decreases ts.len(),
    {
        if ts.len() == 0 {
            self
        } else {
            self.run(ts.drop_last()).observe(ts.last())
        }
    }

    /// The machine after the end of the stream was announced.
    pub open spec fn observe_eof(self) -> Machine {
        if self.error is None && !self.shape.finished() {
            self.latch(Error::IncompleteAtFinalize)
        } else {
            self
        }
    }

    /// What an operation that left the machine in this state returns.
    pub open spec fn result(self) -> Result<(), Error> {
        match self.error {
            Some(e) => Err(e),
            None => Ok(()),
        }
    }
}

/// The executable automaton.
#[derive(Debug)]
pub struct StateTracker {
    stack: Vec<Frame>,
    max_depth: usize,
    complete: bool,
    error: Option<Error>,
}

impl View for StateTracker {
    type V = Machine;

    closed spec fn view(&self) -> Machine {
        Machine {
            shape: Shape { stack: self.stack@, complete: self.complete },
            max_depth: self.max_depth as nat,
            error: self.error,
        }
    }
}

impl Default for StateTracker {
    fn default() -> (s: StateTracker)
        ensures
            s@ == Machine::fresh(DEFAULT_MAX_DEPTH as nat),
    {
        StateTracker::new()
    }
}

impl StateTracker {
    /// What holds of every automaton: its position is reachable and within
    /// its depth budget.
    #[verifier::type_invariant]
    pub open spec fn inv(&self) -> bool {
        self@.wf()
    }

    /// An automaton that has seen nothing, with the default depth limit.
    pub fn new() -> (s: StateTracker)
        ensures
            s@ == Machine::fresh(DEFAULT_MAX_DEPTH as nat),
    {
        StateTracker {
            stack: Vec::new(),
            max_depth: DEFAULT_MAX_DEPTH,
            complete: false,
            error: None,
        }
    }

    /// Sets the depth limit. Where more containers are open already than the
    /// new limit allows, `DepthExceeded` is latched instead.
    pub fn set_max_depth(&mut self, new_max_depth: usize)
        ensures
            final(self)@ == old(self)@.limit(new_max_depth as nat),
    {
        proof {
            use_type_invariant(&*self);
        }
        if self.error.is_none() {
            if self.stack.len() <= new_max_depth {
                self.max_depth = new_max_depth;
            } else {
                self.error = Some(Error::DepthExceeded);
            }
        }
    }

    /// The configured maximum minus the current depth.
    pub fn remaining_depth(&self) -> (d: usize)
        ensures
            d == self@.remaining_depth(),
    {
        proof {
            use_type_invariant(self);
        }
        self.max_depth - self.stack.len()
    }

    /// The latched error, if any. Nothing changes.
    pub fn check_error(&self) -> (r: Result<(), Error>)
        ensures
            r == self@.result(),
    {
        match self.error {
            Some(e) => Err(e),
            None => Ok(()),
        }
    }

    /// Latches the error of `result`, if it is one and none is latched yet.
    /// Returns the error that was already latched, else `result` itself.
    pub fn latch_err<T>(&mut self, result: Result<T, Error>) -> (r: Result<T, Error>)
        ensures
            final(self)@ == (match result {
                Err(e) => old(self)@.latch(e),
                Ok(_) => old(self)@,
            }),
            r == (match old(self)@.error {
                Some(e) => Err(e),
                None => result,
            }),
    {
        proof {
            use_type_invariant(&*self);
        }
        if let Some(e) = self.error {
            return Err(e);
        }
        if let Err(e) = &result {
            self.error = Some(*e);
        }
        result
    }

    /// Announces the end of the stream: succeeds where exactly one top-level
    /// value is complete and nothing is open, and latches
    /// `IncompleteAtFinalize` otherwise.
    pub fn observe_eof(&mut self) -> (r: Result<(), Error>)
        ensures
            final(self)@ == old(self)@.observe_eof(),
            r == final(self)@.result(),
    {
        proof {
            use_type_invariant(&*self);
        }
        if let Some(e) = self.error {
            return Err(e);
        }
        if self.complete && self.stack.len() == 0 {
            Ok(())
        } else {
            self.error = Some(Error::IncompleteAtFinalize);
            Err(Error::IncompleteAtFinalize)
        }
    }

    /// Shows the automaton one token.
    pub fn observe_token(&mut self, token: &Token) -> (r: Result<(), Error>)
        ensures
            final(self)@ == old(self)@.observe(token@),
            r == final(self)@.result(),
    {
        proof {
            use_type_invariant(&*self);
        }
        if let Some(e) = self.error {
            return Err(e);
        }
        let n = self.stack.len();
        let top: Option<Frame> = if n == 0 {
            None
        } else {
            Some(self.stack[n - 1])
        };
        if let Some(e) = mismatch(top, self.complete, token) {
            return self.reject(e);
        }
        let opens = match token {
            Token::List | Token::Dict => true,
            _ => false,
        };
        if opens && n >= self.max_depth {
            return self.reject(Error::DepthExceeded);
        }
        // The stack is taken out for the change and put back afterwards.
        let mut stack: Vec<Frame> = Vec::new();
        core::mem::swap(&mut self.stack, &mut stack);
        let complete = advance(&mut stack, token);
        self.stack = stack;
        self.complete = complete;
        Ok(())
    }

    /// Latches `e` on an automaton that holds no error yet.
    fn reject(&mut self, e: Error) -> (r: Result<(), Error>)
        requires
            old(self)@.error is None,
        ensures
            final(self)@ == old(self)@.latch(e),
            r == Err::<(), Error>(e),
    {
        proof {
            use_type_invariant(&*self);
        }
        self.error = Some(e);
        Err(e)
    }
}

/// The executable form of [`Shape::mismatch`], on the innermost frame.
fn mismatch(top: Option<Frame>, complete: bool, token: &Token) -> (r: Option<Error>)
    ensures
        forall|shape: Shape|
            shape.top() == top && shape.complete == complete ==> r == #[trigger] shape.mismatch(
                token@,
            ),
{
    match top {
        None => {
            if complete {
                Some(Error::ExtraTopLevelValue)
            } else {
                match token {
                    Token::End => Some(Error::UnexpectedToken),
                    _ => None,
                }
            }
        },
        Some(Frame::List) => None,
        Some(Frame::DictExpectingKey) => match token {
            Token::String(_) | Token::End => None,
            _ => Some(Error::UnexpectedToken),
        },
        Some(Frame::DictExpectingValue) => match token {
            Token::End => Some(Error::UnexpectedToken),
            _ => None,
        },
    }
}

/// Replaces the innermost frame of a stack that is not empty.
fn replace_top(stack: &mut Vec<Frame>, frame: Frame)
    requires
        old(stack)@.len() > 0,
    ensures
        final(stack)@ == old(stack)@.drop_last().push(frame),
{
    stack.pop();
    stack.push(frame);
}

/// The executable form of [`Shape::advance`], for a token that the grammar
/// accepts at a position whose top-level value is not complete. Returns
/// whether it is complete afterwards.
fn advance(stack: &mut Vec<Frame>, token: &Token) -> (complete: bool)
    requires
        (Shape { stack: old(stack)@, complete: false }).mismatch(token@) is None,
    ensures
        (Shape { stack: final(stack)@, complete }) == (Shape {
            stack: old(stack)@,
            complete: false,
        }).advance(token@),
{
    let n = stack.len();
    let ghost before = Shape { stack: stack@, complete: false };
    match token {
        Token::End => {
            stack.pop();
            assert(stack@ =~= before.advance(token@).stack);
            n == 1
        },
        Token::List | Token::Dict => {
            if n > 0 {
                if let Frame::DictExpectingValue = stack[n - 1] {
                    replace_top(stack, Frame::DictExpectingKey);
                }
            }
            if let Token::List = token {
                stack.push(Frame::List);
            } else {
                stack.push(Frame::DictExpectingKey);
            }
            assert(stack@ =~= before.advance(token@).stack);
            false
        },
        Token::String(_) | Token::Num(_) => {
            if n == 0 {
                true
            } else {
                match stack[n - 1] {
                    Frame::List => {},
                    Frame::DictExpectingKey => {
                        replace_top(stack, Frame::DictExpectingValue);
                    },
                    Frame::DictExpectingValue => {
                        replace_top(stack, Frame::DictExpectingKey);
                    },
                }
                assert(stack@ =~= before.advance(token@).stack);
                false
            }
        },
    }
}

/// Whatever a machine is shown, its position stays reachable and within the
/// depth budget, and the budget itself does not change.
pub proof fn lemma_observe_keeps_wf(m: Machine, t: Tok)
    requires
        m.wf(),
    ensures
        m.observe(t).wf(),
        m.observe(t).max_depth == m.max_depth,
{
}

/// Whatever limit a machine is given, its position stays within its depth
/// budget.
pub proof fn lemma_limit_keeps_wf(m: Machine, max_depth: nat)
    requires
        m.wf(),
    ensures
        m.limit(max_depth).wf(),
        m.limit(max_depth).shape == m.shape,
        m.error is None && m.depth() <= max_depth ==> m.limit(max_depth).max_depth == max_depth,
{
}

/// The same, for any number of tokens.
pub proof fn lemma_run_keeps_wf(m: Machine, ts: Seq<Tok>)
    requires
        m.wf(),
    ensures
        m.run(ts).wf(),
        m.run(ts).max_depth == m.max_depth,
        m.run(ts).shape.stack.len() <= m.max_depth,
    decreases ts.len(),
{
    if ts.len() > 0 {
        lemma_run_keeps_wf(m, ts.drop_last());
        lemma_observe_keeps_wf(m.run(ts.drop_last()), ts.last());
    }
}

/// A refused token leaves the position as it was and latches its error.
pub proof fn lemma_refusal_changes_nothing_else(m: Machine, t: Tok)
    requires
        m.error is None,
        m.observe(t).error is Some,
    ensures
        m.observe(t).shape == m.shape,
        m.observe(t).max_depth == m.max_depth,
        m.observe(t).error == m.verdict(t),
{
}

/// Once an error is latched, no token, no end of stream and no further error
/// changes the machine: it keeps answering with the first error.
pub proof fn lemma_latched_is_absorbing(m: Machine, ts: Seq<Tok>, e: Error)
    requires
        m.error is Some,
    ensures
        m.run(ts) == m,
        m.observe_eof() == m,
        m.latch(e) == m,
        m.limit(ts.len()) == m,
        m.run(ts).result() == m.result(),
    decreases ts.len(),
{
    if ts.len() > 0 {
        lemma_latched_is_absorbing(m, ts.drop_last(), e);
    }
}

/// The end of the stream is accepted exactly where one top-level value is
/// complete and nothing is open; anywhere else it latches
/// `IncompleteAtFinalize`.
pub proof fn lemma_eof_accepts_finished_only(m: Machine)
    requires
        m.error is None,
    ensures
        m.observe_eof().error is None <==> m.shape.finished(),
        !m.shape.finished() ==> m.observe_eof().error == Some(Error::IncompleteAtFinalize),
        Machine::fresh(m.max_depth).observe_eof().error == Some(Error::IncompleteAtFinalize),
{
}

/// `n` lists opened one inside the other.
pub open spec fn nested_lists(n: nat) -> Seq<Tok> {
    Seq::new(n, |i: int| Tok::List)
}

/// Under a maximum of `max`, containers can be opened to depth `max`, and
/// the next one is refused with `DepthExceeded`.
pub proof fn lemma_depth_limit(max: nat, n: nat)
    requires
        n <= max,
    ensures
        Machine::fresh(max).run(nested_lists(n)).error is None,
        Machine::fresh(max).run(nested_lists(n)).depth() == n,
        Machine::fresh(max).run(nested_lists(max + 1)).error == Some(Error::DepthExceeded),
        Machine::fresh(max).run(nested_lists(max + 1)).depth() == max,
{
    lemma_nested_lists(max, n);
    lemma_nested_lists(max, max);
    assert(nested_lists(max + 1).drop_last() =~= nested_lists(max));
}

/// Opening `n` lists within the budget leaves `n` lists open.
proof fn lemma_nested_lists(max: nat, n: nat)
    requires
        n <= max,
    ensures
        Machine::fresh(max).run(nested_lists(n)).error is None,
        Machine::fresh(max).run(nested_lists(n)).max_depth == max,
        Machine::fresh(max).run(nested_lists(n)).shape.complete == false,
        Machine::fresh(max).run(nested_lists(n)).shape.stack =~= Seq::new(n, |i: int| Frame::List),
    decreases n,
{
    if n > 0 {
        lemma_nested_lists(max, (n - 1) as nat);
        assert(nested_lists(n).drop_last() =~= nested_lists((n - 1) as nat));
        let before = Machine::fresh(max).run(nested_lists((n - 1) as nat));
        assert(before.shape.settled() =~= before.shape.stack);
    }
}

} // verus!
