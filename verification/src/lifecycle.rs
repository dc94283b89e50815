//! The connection lifecycle: a state machine `Handshaking -> Open ->
//! Closed` (terminal). The caller owns the stream and the clock; it
//! reports what happened as an event and performs the action this
//! module decides on.

use vstd::prelude::*;
use crate::frame::{parse_frame, frame_err, opcode_of, masked_payload, mask_of, apply_mask_spec,
    Frame};
use crate::handshake::{handshake_response, is_upgrade_request, has_prefix, get_prefix, find_key,
    response_spec};

verus! {

/// Where a connection stands.
#[derive(Debug, PartialEq, Eq, Structural, Clone, Copy)]
pub enum ConnState {
    Handshaking,
    Open,
    Closed,
}

/// What the caller observed on the connection: bytes read (the request
/// while handshaking, one frame's bytes once open), the keepalive
/// interval elapsing, a read that yielded nothing (would-block or an
/// empty chunk), a fatal read error, or a failed write.
pub enum Event {
    BytesRead(Vec<u8>),
    PingDue,
    NoData,
    ReadError,
    WriteError,
}

/// What the caller must do next: write the upgrade response, send a
/// keepalive ping, answer a ping with a pong, hand a data payload to
/// the payload collaborator, or nothing.
pub enum Action {
    SendResponse(Vec<u8>),
    SendPing,
    SendPong,
    Deliver(Vec<u8>),
    Ignore,
}

/// The state after one event.
pub open spec fn next_state(state: ConnState, event: Event) -> ConnState {
    match (state, event) {
        (ConnState::Handshaking, Event::BytesRead(req)) => if has_prefix(req@, get_prefix())
            && find_key(req@) is Some {
            ConnState::Open
        } else {
            ConnState::Closed
        },
        (ConnState::Handshaking, Event::ReadError) => ConnState::Closed,
        (ConnState::Handshaking, Event::WriteError) => ConnState::Closed,
        (ConnState::Handshaking, _) => ConnState::Handshaking,
        (ConnState::Open, Event::BytesRead(buf)) => match frame_err(buf@) {
            Some(_) => ConnState::Closed,
            None => if opcode_of(buf@) == 8 {
                ConnState::Closed
            } else {
                ConnState::Open
            },
        },
        (ConnState::Open, Event::ReadError) => ConnState::Closed,
        (ConnState::Open, Event::WriteError) => ConnState::Closed,
        (ConnState::Open, _) => ConnState::Open,
        (ConnState::Closed, _) => ConnState::Closed,
    }
}

/// The action owed for one event.
pub open spec fn action_matches(state: ConnState, event: Event, a: Action) -> bool {
    match (state, event) {
        (ConnState::Handshaking, Event::BytesRead(req)) => if has_prefix(req@, get_prefix())
            && find_key(req@) is Some {
            match a {
                Action::SendResponse(resp) => resp@ == response_spec(find_key(req@).unwrap()),
                _ => false,
            }
        } else {
            a is Ignore
        },
        (ConnState::Open, Event::BytesRead(buf)) => match frame_err(buf@) {
            Some(_) => a is Ignore,
            None => if opcode_of(buf@) == 1 || opcode_of(buf@) == 2 {
                match a {
                    Action::Deliver(p) => p@ == apply_mask_spec(masked_payload(buf@), mask_of(buf@)),
                    _ => false,
                }
            } else if opcode_of(buf@) == 9 {
                a is SendPong
            } else {
                a is Ignore
            },
        },
        (ConnState::Open, Event::PingDue) => a is SendPing,
        (_, _) => a is Ignore,
    }
}

/// Drive the state machine one event forward. The length bounds on a
/// handshake read are machine limits carried through from the hash.
pub fn step(state: ConnState, event: Event) -> (r: (ConnState, Action))
    requires
        state is Handshaking ==> match event {
            Event::BytesRead(b) => b@.len() + 128 <= usize::MAX && (b@.len() + 36) * 8
                <= u64::MAX,
            _ => true,
        },
    ensures
        r.0 == next_state(state, event),
        action_matches(state, event, r.1),
{
    match (state, event) {
        (ConnState::Handshaking, Event::BytesRead(req)) => {
            if is_upgrade_request(req.as_slice()) {
                match handshake_response(req.as_slice()) {
                    Ok(resp) => (ConnState::Open, Action::SendResponse(resp)),
                    Err(_) => (ConnState::Closed, Action::Ignore),
                }
            } else {
                (ConnState::Closed, Action::Ignore)
            }
        },
        (ConnState::Handshaking, Event::ReadError) => (ConnState::Closed, Action::Ignore),
        (ConnState::Handshaking, Event::WriteError) => (ConnState::Closed, Action::Ignore),
        (ConnState::Handshaking, _) => (ConnState::Handshaking, Action::Ignore),
        (ConnState::Open, Event::BytesRead(buf)) => {
            match parse_frame(buf.as_slice()) {
                Ok(Frame::Data(p)) => (ConnState::Open, Action::Deliver(p)),
                Ok(Frame::Ping) => (ConnState::Open, Action::SendPong),
                Ok(Frame::Pong) => (ConnState::Open, Action::Ignore),
                Ok(Frame::Close) => (ConnState::Closed, Action::Ignore),
                Err(_) => (ConnState::Closed, Action::Ignore),
            }
        },
        (ConnState::Open, Event::PingDue) => (ConnState::Open, Action::SendPing),
        (ConnState::Open, Event::NoData) => (ConnState::Open, Action::Ignore),
        (ConnState::Open, Event::ReadError) => (ConnState::Closed, Action::Ignore),
        (ConnState::Open, Event::WriteError) => (ConnState::Closed, Action::Ignore),
        (ConnState::Closed, _) => (ConnState::Closed, Action::Ignore),
    }
}

/// Whether the keepalive interval (a fixed 5 seconds) has elapsed
/// since the last ping, so that the next loop turn owes a `PingDue`.
pub fn ping_due(elapsed_millis: u64) -> (r: bool)
    ensures
        r == (elapsed_millis > 5000),
{
    elapsed_millis > 5000
}

/// A Close frame received while open moves the connection to `Closed`,
/// and `Closed` is terminal: every later event leaves it closed and
/// asks the caller for nothing, so no further reads occur.
pub proof fn lemma_close_is_terminal(buf: Vec<u8>, later: Event)
    requires
        frame_err(buf@) is None,
        opcode_of(buf@) == 8,
    ensures
        next_state(ConnState::Open, Event::BytesRead(buf)) == ConnState::Closed,
        next_state(ConnState::Closed, later) == ConnState::Closed,
        forall|a: Action| action_matches(ConnState::Closed, later, a) ==> a is Ignore,
{
}

} // verus!
