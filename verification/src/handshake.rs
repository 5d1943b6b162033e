//! The peer handshake: the 68-byte message, and the state machine that
//! gathers the peer's answer out of reads of any size.

use crate::error::{Error, Failure};
use vstd::prelude::*;
use vstd::slice::{slice_subrange, slice_to_vec};

verus! {

/// The length of a handshake message.
pub const HANDSHAKE_LEN: usize = 68;

/// The length of a peer id and of an info-hash.
pub const ID_LEN: usize = 20;

/// The name of the protocol, `BitTorrent protocol`, in ASCII.
pub open spec fn protocol_name() -> Seq<u8> {
    seq![
        66u8, 105, 116, 84, 111, 114, 114, 101, 110, 116, 32, 112, 114, 111, 116, 111, 99, 111, 108,
    ]
}

/// The handshake message: the length of the protocol name, the name, eight
/// reserved zero bytes, the info-hash, and the sender's peer id.
pub open spec fn handshake_bytes(info_hash: Seq<u8>, peer_id: Seq<u8>) -> Seq<u8> {
    seq![19u8] + protocol_name() + Seq::new(8, |i: int| 0u8) + info_hash + peer_id
}

/// Builds the handshake message that is sent to a peer.
pub fn handshake_message(info_hash: &[u8; 20], peer_id: &[u8; 20]) -> (message: Vec<u8>)
    ensures
        message@ == handshake_bytes(info_hash@, peer_id@),
        message.len() == HANDSHAKE_LEN,
{
    let name: [u8; 19] = [
        66, 105, 116, 84, 111, 114, 114, 101, 110, 116, 32, 112, 114, 111, 116, 111, 99, 111, 108,
    ];
    let mut message: Vec<u8> = Vec::new();
    message.push(19);
    let mut i: usize = 0;
    while i < 19
        invariant
            i <= 19,
            name@ == protocol_name(),
            message@ == seq![19u8] + protocol_name().take(i as int),
        decreases 19 - i,
    {
        message.push(name[i]);
        assert(protocol_name().take(i + 1) =~= protocol_name().take(i as int).push(
            name@[i as int],
        ));
        i += 1;
    }
    assert(protocol_name().take(19) =~= protocol_name());
    let ghost zeros = Seq::new(8, |i: int| 0u8);
    i = 0;
    while i < 8
        invariant
            i <= 8,
            zeros.len() == 8,
            forall|j: int| 0 <= j < 8 ==> zeros[j] == 0u8,
            message@ == seq![19u8] + protocol_name() + zeros.take(i as int),
        decreases 8 - i,
    {
        message.push(0);
        assert(zeros.take(i + 1) =~= zeros.take(i as int).push(0u8));
        i += 1;
    }
    assert(zeros.take(8) =~= zeros);
    i = 0;
    while i < 20
        invariant
            i <= 20,
            message@ == seq![19u8] + protocol_name() + zeros + info_hash@.take(i as int),
        decreases 20 - i,
    {
        message.push(info_hash[i]);
        assert(info_hash@.take(i + 1) =~= info_hash@.take(i as int).push(info_hash@[i as int]));
        i += 1;
    }
    assert(info_hash@.take(20) =~= info_hash@);
    i = 0;
    while i < 20
        invariant
            i <= 20,
            message@ == seq![19u8] + protocol_name() + zeros + info_hash@ + peer_id@.take(i as int),
        decreases 20 - i,
    {
        message.push(peer_id[i]);
        assert(peer_id@.take(i + 1) =~= peer_id@.take(i as int).push(peer_id@[i as int]));
        i += 1;
    }
    assert(peer_id@.take(20) =~= peer_id@);
    message
}

/// Where a handshake stands.
#[derive(Debug, PartialEq, Eq)]
pub enum HandshakeState {
    /// The connection is being opened.
    Connecting,
    /// The message went out; these bytes of the answer have come in.
    AwaitingReply(Vec<u8>),
    /// The answer is complete; this is the peer's id.
    Done(Vec<u8>),
    /// The handshake failed.
    Failed(Error),
}

/// What happened on the connection.
#[derive(Debug, PartialEq, Eq)]
pub enum HandshakeEvent {
    /// The connection is open.
    Connected,
    /// The connection could not be opened.
    ConnectFailed,
    /// A read returned these bytes; none means that the peer closed the
    /// connection.
    Received(Vec<u8>),
    /// A read on a non-blocking connection had nothing to return yet.
    NotReady,
    /// The time allowed for the connection or for the answer ran out.
    TimedOut,
}

/// What the caller does next.
#[derive(Debug, PartialEq, Eq)]
pub enum HandshakeAction {
    /// Open the connection.
    Connect,
    /// Write all of this message, then read.
    Send(Vec<u8>),
    /// Read at most this many bytes.
    Receive(usize),
    /// Nothing: the handshake is over.
    Stop,
}

/// A state as plain values.
pub enum Phase {
    Connecting,
    AwaitingReply(Seq<u8>),
    Done(Seq<u8>),
    Failed(Failure),
}

/// An event as plain values.
pub enum Signal {
    Connected,
    ConnectFailed,
    Received(Seq<u8>),
    NotReady,
    TimedOut,
}

/// An action as plain values.
pub enum Step {
    Connect,
    Send(Seq<u8>),
    Receive(int),
    Stop,
}

impl View for HandshakeState {
    type V = Phase;

    open spec fn view(&self) -> Phase {
        match self {
            HandshakeState::Connecting => Phase::Connecting,
            HandshakeState::AwaitingReply(received) => Phase::AwaitingReply(received@),
            HandshakeState::Done(peer_id) => Phase::Done(peer_id@),
            HandshakeState::Failed(e) => Phase::Failed(e@),
        }
    }
}

impl View for HandshakeEvent {
    type V = Signal;

    open spec fn view(&self) -> Signal {
        match self {
            HandshakeEvent::Connected => Signal::Connected,
            HandshakeEvent::ConnectFailed => Signal::ConnectFailed,
            HandshakeEvent::Received(chunk) => Signal::Received(chunk@),
            HandshakeEvent::NotReady => Signal::NotReady,
            HandshakeEvent::TimedOut => Signal::TimedOut,
        }
    }
}

impl View for HandshakeAction {
    type V = Step;

    open spec fn view(&self) -> Step {
        match self {
            HandshakeAction::Connect => Step::Connect,
            HandshakeAction::Send(message) => Step::Send(message@),
            HandshakeAction::Receive(n) => Step::Receive(*n as int),
            HandshakeAction::Stop => Step::Stop,
        }
    }
}

/// The state after `chunk` was read while `received` had come in before. An
/// empty read means that the peer closed the connection. More than 68 bytes in
/// all break the protocol. Exactly 68 complete the answer, and its last 20
/// bytes are the peer's id.
pub open spec fn after_read(received: Seq<u8>, chunk: Seq<u8>) -> Phase {
    if chunk.len() == 0 {
        Phase::Failed(Failure::ConnectionClosed)
    } else if received.len() + chunk.len() > 68 {
        Phase::Failed(Failure::ProtocolError)
    } else if received.len() + chunk.len() == 68 {
        Phase::Done((received + chunk).subrange(48, 68))
    } else {
        Phase::AwaitingReply(received + chunk)
    }
}

/// The state that follows `phase` on `signal`. Running out of time fails a
/// handshake that is not over. Any other signal that the state does not wait
/// for changes nothing; `Done` and `Failed` are final.
pub open spec fn stepped(phase: Phase, signal: Signal) -> Phase {
    match (phase, signal) {
        (Phase::Connecting, Signal::Connected) => Phase::AwaitingReply(Seq::empty()),
        (Phase::Connecting, Signal::ConnectFailed) => Phase::Failed(Failure::ConnectError),
        (Phase::Connecting, Signal::TimedOut) => Phase::Failed(Failure::Timeout),
        (Phase::AwaitingReply(received), Signal::Received(chunk)) => after_read(received, chunk),
        (Phase::AwaitingReply(_), Signal::TimedOut) => Phase::Failed(Failure::Timeout),
        _ => phase,
    }
}

/// What is to be done on entering `next` on `signal`: the message goes out
/// when the connection opens, and a read asks for what is still missing.
pub open spec fn step_for(
    next: Phase,
    signal: Signal,
    info_hash: Seq<u8>,
    peer_id: Seq<u8>,
) -> Step {
    match next {
        Phase::Connecting => Step::Connect,
        Phase::AwaitingReply(received) => if signal is Connected && received.len() == 0 {
            Step::Send(handshake_bytes(info_hash, peer_id))
        } else if received.len() < 68 {
            Step::Receive(68 - received.len())
        } else {
            Step::Receive(0)
        },
        Phase::Done(_) => Step::Stop,
        Phase::Failed(_) => Step::Stop,
    }
}

/// What is to be done while the answer is awaited: send the message when the
/// connection has just opened, else read what is missing.
fn action_for_reply(
    received: &Vec<u8>,
    connected: bool,
    info_hash: &[u8; 20],
    peer_id: &[u8; 20],
) -> (action: HandshakeAction)
    ensures
        action@ == step_for(
            Phase::AwaitingReply(received@),
            if connected {
                Signal::Connected
            } else {
                Signal::NotReady
            },
            info_hash@,
            peer_id@,
        ),
{
    if connected && received.len() == 0 {
        HandshakeAction::Send(handshake_message(info_hash, peer_id))
    } else if received.len() < HANDSHAKE_LEN {
        HandshakeAction::Receive(HANDSHAKE_LEN - received.len())
    } else {
        HandshakeAction::Receive(0)
    }
}

/// One step of the handshake: the state that follows `state` on `event`, and
/// what the caller does next. The caller performs the action and comes back
/// with the event that it led to, until the action is `Stop`.
pub fn handshake_step(
    state: HandshakeState,
    event: HandshakeEvent,
    info_hash: &[u8; 20],
    peer_id: &[u8; 20],
) -> (r: (HandshakeState, HandshakeAction))
    ensures
        r.0@ == stepped(state@, event@),
        r.1@ == step_for(r.0@, event@, info_hash@, peer_id@),
{
    match state {
        HandshakeState::Connecting => match event {
            HandshakeEvent::Connected => {
                let received: Vec<u8> = Vec::new();
                let action = action_for_reply(&received, true, info_hash, peer_id);
                (HandshakeState::AwaitingReply(received), action)
            },
            HandshakeEvent::ConnectFailed => (
                HandshakeState::Failed(Error::ConnectError),
                HandshakeAction::Stop,
            ),
            HandshakeEvent::TimedOut => (
                HandshakeState::Failed(Error::Timeout),
                HandshakeAction::Stop,
            ),
            _ => (HandshakeState::Connecting, HandshakeAction::Connect),
        },
        HandshakeState::AwaitingReply(mut received) => match event {
            HandshakeEvent::Received(chunk) => {
                if chunk.len() == 0 {
                    (HandshakeState::Failed(Error::ConnectionClosed), HandshakeAction::Stop)
                } else if received.len() > HANDSHAKE_LEN || chunk.len() > HANDSHAKE_LEN
                    - received.len() {
                    (HandshakeState::Failed(Error::ProtocolError), HandshakeAction::Stop)
                } else {
                    let ghost before = received@;
                    let mut i: usize = 0;
                    while i < chunk.len()
                        invariant
                            i <= chunk.len(),
                            received@ == before + chunk@.take(i as int),
                        decreases chunk.len() - i,
                    {
                        received.push(chunk[i]);
                        assert(chunk@.take(i + 1) =~= chunk@.take(i as int).push(
                            chunk@[i as int],
                        ));
                        i += 1;
                    }
                    assert(chunk@.take(i as int) =~= chunk@);
                    if received.len() == HANDSHAKE_LEN {
                        let start = HANDSHAKE_LEN - ID_LEN;
                        let id = slice_to_vec(
                            slice_subrange(received.as_slice(), start, HANDSHAKE_LEN),
                        );
                        (HandshakeState::Done(id), HandshakeAction::Stop)
                    } else {
                        let action = action_for_reply(&received, false, info_hash, peer_id);
                        (HandshakeState::AwaitingReply(received), action)
                    }
                }
            },
            HandshakeEvent::Connected => {
                let action = action_for_reply(&received, true, info_hash, peer_id);
                (HandshakeState::AwaitingReply(received), action)
            },
            HandshakeEvent::TimedOut => (
                HandshakeState::Failed(Error::Timeout),
                HandshakeAction::Stop,
            ),
            _ => {
                let action = action_for_reply(&received, false, info_hash, peer_id);
                (HandshakeState::AwaitingReply(received), action)
            },
        },
        HandshakeState::Done(id) => (HandshakeState::Done(id), HandshakeAction::Stop),
        HandshakeState::Failed(e) => (HandshakeState::Failed(e), HandshakeAction::Stop),
    }
}

/// The state after the reads of `chunks`, one after the other.
pub open spec fn fed(phase: Phase, chunks: Seq<Seq<u8>>) -> Phase
    decreases chunks.len(),
{
    if chunks.len() == 0 {
        phase
    } else {
        fed(stepped(phase, Signal::Received(chunks[0])), chunks.skip(1))
    }
}

/// The bytes of `chunks`, one chunk after the other.
pub open spec fn joined(chunks: Seq<Seq<u8>>) -> Seq<u8>
    decreases chunks.len(),
{
    if chunks.len() == 0 {
        Seq::empty()
    } else {
        chunks[0] + joined(chunks.skip(1))
    }
}

/// Two reads in a row are as good as one read of both chunks, as long as
/// neither is empty and the first does not complete the answer.
pub proof fn law_reads_compose(received: Seq<u8>, a: Seq<u8>, b: Seq<u8>)
    requires
        a.len() > 0,
        b.len() > 0,
        received.len() + a.len() != 68,
    ensures
        stepped(stepped(Phase::AwaitingReply(received), Signal::Received(a)), Signal::Received(b))
            == stepped(Phase::AwaitingReply(received), Signal::Received(a + b)),
{
    assert((received + a) + b =~= received + (a + b));
}

/// However the 68 bytes of an answer are cut into reads that are not empty,
/// the handshake ends with the same peer id as after one read of all 68: the
/// last 20 of them.
pub proof fn law_chunked_reply(received: Seq<u8>, chunks: Seq<Seq<u8>>)
    requires
        chunks.len() > 0,
        forall|i: int| 0 <= i < chunks.len() ==> (#[trigger] chunks[i]).len() > 0,
        received.len() + joined(chunks).len() == 68,
    ensures
        fed(Phase::AwaitingReply(received), chunks) == Phase::Done(
            (received + joined(chunks)).subrange(48, 68),
        ),
        fed(Phase::AwaitingReply(received), chunks) == stepped(
            Phase::AwaitingReply(received),
            Signal::Received(joined(chunks)),
        ),
    decreases chunks.len(),
{
    let first = chunks[0];
    let rest = chunks.skip(1);
    if rest.len() == 0 {
        assert(joined(rest) =~= Seq::<u8>::empty());
        assert(joined(chunks) =~= first);
        assert(fed(Phase::Done((received + first).subrange(48, 68)), rest) == Phase::Done(
            (received + first).subrange(48, 68),
        ));
    } else {
        assert(rest[0] == chunks[1]);
        assert(joined(rest).len() >= rest[0].len());
        assert forall|i: int| 0 <= i < rest.len() implies (#[trigger] rest[i]).len() > 0 by {
            assert(rest[i] == chunks[i + 1]);
        }
        law_chunked_reply(received + first, rest);
        assert((received + first) + joined(rest) =~= received + joined(chunks));
    }
}

} // verus!
