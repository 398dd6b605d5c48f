//! Framing: what the bytes received on a connection ask for.

use vstd::prelude::*;
use vstd::slice::slice_subrange;
use vstd::string::*;
use crate::parser::{decode, lemma_decode_advances, parse, DecodeError};
use crate::stream::{deepest, lemma_decode_settled, lemma_depth_bounded};
use crate::value::{views, Value, ValueView};

verus! {

/// The reply to a request that is no array.
pub open spec fn invalid_command() -> ValueView {
    ValueView::Error("Invalid command"@)
}

/// The reply to a request that takes more bytes than the limit allows.
pub open spec fn too_large() -> ValueView {
    ValueView::Error("Protocol error: request too large"@)
}

/// The content of a [`Request`].
pub enum RequestView {
    /// A command of `values` that takes the first `used` bytes.
    Command { values: Seq<ValueView>, used: int },
    /// No request: `reply` says why.
    Refused { reply: ValueView },
    /// The start of a request, not yet whole.
    Incomplete,
}

/// What the bytes received so far on a connection ask of its handler.
#[derive(Debug, PartialEq, Eq)]
pub enum Request {
    /// A command stands at the start of the bytes and takes `used` of them:
    /// run it, send its reply, and go on with the bytes after it.
    Command { values: Vec<Value>, used: usize },
    /// The bytes are no request, and no later byte can mend them: send
    /// `reply` if the stream still takes it, and close the connection.
    Refused { reply: Value },
    /// The bytes end before the request does: read on.
    Incomplete,
}

impl View for Request {
    type V = RequestView;

    open spec fn view(&self) -> RequestView {
        match self {
            Request::Command { values, used } => RequestView::Command {
                values: views(values@),
                used: *used as int,
            },
            Request::Refused { reply } => RequestView::Refused { reply: reply@ },
            Request::Incomplete => RequestView::Incomplete,
        }
    }
}

/// The part of `input` that a request may take: its first `limit` bytes.
pub open spec fn window(input: Seq<u8>, limit: nat) -> Seq<u8> {
    if input.len() <= limit {
        input
    } else {
        input.take(limit as int)
    }
}

/// What `input` asks for, where a request may take `limit` bytes at most.
///
/// A request is one array, decoded from the first `limit` bytes alone.
/// Bytes that decode to anything else, or that cannot be decoded, are
/// refused; bytes that only end too early are incomplete until they have
/// reached the limit.
pub open spec fn framed(input: Seq<u8>, limit: nat) -> RequestView {
    match decode(window(input, limit)) {
        Ok((request, used)) => match request {
            ValueView::Array(values) => RequestView::Command { values, used },
            _ => RequestView::Refused { reply: invalid_command() },
        },
        Err(e) => if !e.is_incomplete() {
            RequestView::Refused { reply: ValueView::Error(e.message()) }
        } else if input.len() >= limit {
            RequestView::Refused { reply: too_large() }
        } else {
            RequestView::Incomplete
        },
    }
}

/// What was decided stays decided: a command that was found, or a refusal,
/// does not depend on what the connection brings next.
pub proof fn lemma_framed_settled(input: Seq<u8>, more: Seq<u8>, limit: nat)
    requires
        framed(input, limit) != RequestView::Incomplete,
    ensures
        framed(input + more, limit) == framed(input, limit),
{
    let before = window(input, limit);
    let after = window(input + more, limit);
    if input.len() >= limit {
        assert(after =~= before);
    } else {
        assert(after =~= before + after.skip(before.len() as int));
        lemma_decode_settled(before, after.skip(before.len() as int), 0);
    }
}

/// The limit on the bytes of a request is a limit on its nesting: a command
/// that was framed took `limit` bytes at most, four or more for every level
/// of arrays in it.
pub proof fn lemma_framed_depth(input: Seq<u8>, limit: nat)
    ensures
        framed(input, limit) matches RequestView::Command { values, used } ==> 4 * (1 + deepest(
            values,
        )) <= used <= limit && used <= input.len(),
{
    lemma_depth_bounded(window(input, limit), 0);
    lemma_decode_advances(window(input, limit), 0);
}

/// Finds the request at the start of `input`, the bytes received so far,
/// where a request may take `limit` bytes at most. No byte beyond the limit
/// is read.
pub fn next_request(input: &[u8], limit: usize) -> (request: Request)
    ensures
        request@ == framed(input@, limit as nat),
{
    let within = if input.len() <= limit {
        input
    } else {
        slice_subrange(input, 0, limit)
    };
    match parse(within) {
        Ok((value, used)) => match value {
            Value::Array(values) => Request::Command { values, used },
            _ => Request::Refused { reply: Value::Error(String::from_str("Invalid command")) },
        },
        Err(e) => match e {
            DecodeError::StreamClosed | DecodeError::Truncated => {
                if input.len() >= limit {
                    Request::Refused {
                        reply: Value::Error(
                            String::from_str("Protocol error: request too large"),
                        ),
                    }
                } else {
                    Request::Incomplete
                }
            },
            _ => Request::Refused { reply: Value::Error(e.to_text()) },
        },
    }
}

} // verus!
