//! An incremental encoder for bencode, the self-delimiting encoding of
//! integers, byte strings, lists and dictionaries.
//!
//! Values are built through nested, scoped calls on an [`encoder::Encoder`].
//! Every byte that reaches the output buffer has first been accepted by a
//! push-down automaton ([`state_tracker::StateTracker`]), so the buffer always
//! holds the beginning of one well-formed encoded value.
//!
//! The modules:
//! - [`state_tracker`]: the automaton and its model;
//! - [`grammar`]: the wire format over token sequences;
//! - [`order`]: the order of dictionary keys over token sequences;
//! - [`decode`]: a reader of the format as a mathematical function, and the
//!   proof that it reads back what was written;
//! - [`integer`]: decimal text, and the integer types that can be written;
//! - [`keys`]: the order of keys, and their comparison;
//! - [`staging`]: the model of a dictionary that is sorted before it is written;
//! - [`encoder`]: the encoder and its builders;
//! - [`theorems`]: what holds of every encoder.
use vstd::prelude::*;

pub mod decode;
pub mod encoder;
pub mod grammar;
pub mod integer;
pub mod keys;
pub mod order;
pub mod staging;
pub mod state_tracker;
pub mod theorems;

verus! {

/// The reasons for which an encoding context refuses to go on.
///
/// The first failure of a context is kept: every later operation on the same
/// context answers with that same value.
#[derive(Clone, Copy, Debug, PartialEq, Eq, Structural)]
pub enum Error {
    /// Opening a container would nest deeper than the configured maximum, or
    /// the maximum was set below the depth that is open already.
    DepthExceeded,
    /// A token does not fit the grammar at the current position: a close with
    /// no open container, a close where a dictionary value is due, or a
    /// dictionary key that is not a byte string.
    UnexpectedToken,
    /// A token arrived after the one top-level value was already complete:
    /// nothing is open, and the stream takes nothing more.
    ExtraTopLevelValue,
    /// A scope that has to write exactly one value returned without writing any.
    NoValueEmitted,
    /// An unsorted dictionary was given the same key twice.
    DuplicateKey,
    /// The end was announced while a container was still open, or before any
    /// value had been written.
    IncompleteAtFinalize,
}

} // verus!
