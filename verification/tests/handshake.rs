use bittorrent::error::Error;
use bittorrent::handshake::{
    handshake_message, handshake_step, HandshakeAction, HandshakeEvent, HandshakeState,
    HANDSHAKE_LEN,
};

const INFO_HASH: [u8; 20] = [
    0xd6, 0x9f, 0x91, 0xe6, 0xb2, 0xae, 0x4c, 0x54, 0x24, 0x68, 0xd1, 0x07, 0x3a, 0x71, 0xd4, 0xea,
    0x13, 0x87, 0x9a, 0x7f,
];

const PEER_ID: [u8; 20] = *b"00112233445566778899";

fn reply() -> Vec<u8> {
    handshake_message(&INFO_HASH, b"-RN0.0.0-abcdefghijk")
}

fn feed(chunks: Vec<Vec<u8>>) -> (HandshakeState, HandshakeAction) {
    let (mut state, mut action) =
        handshake_step(HandshakeState::Connecting, HandshakeEvent::Connected, &INFO_HASH, &PEER_ID);
    for chunk in chunks {
        let next = handshake_step(state, HandshakeEvent::Received(chunk), &INFO_HASH, &PEER_ID);
        state = next.0;
        action = next.1;
    }
    (state, action)
}

#[test]
fn layout_of_the_message() {
    let message = handshake_message(&INFO_HASH, &PEER_ID);
    assert_eq!(message.len(), 68);
    assert_eq!(HANDSHAKE_LEN, 68);
    assert_eq!(message[0], 19);
    assert_eq!(&message[1..20], b"BitTorrent protocol");
    assert_eq!(&message[20..28], &[0u8; 8]);
    assert_eq!(&message[28..48], &INFO_HASH);
    assert_eq!(&message[48..68], &PEER_ID);
}

#[test]
fn connecting_then_connected_sends_the_message() {
    let (state, action) =
        handshake_step(HandshakeState::Connecting, HandshakeEvent::Connected, &INFO_HASH, &PEER_ID);
    assert_eq!(state, HandshakeState::AwaitingReply(vec![]));
    assert_eq!(action, HandshakeAction::Send(handshake_message(&INFO_HASH, &PEER_ID)));
}

#[test]
fn connection_that_fails() {
    let (state, action) = handshake_step(
        HandshakeState::Connecting,
        HandshakeEvent::ConnectFailed,
        &INFO_HASH,
        &PEER_ID,
    );
    assert_eq!(state, HandshakeState::Failed(Error::ConnectError));
    assert_eq!(action, HandshakeAction::Stop);
}

#[test]
fn one_read_of_the_whole_answer() {
    let (state, action) = feed(vec![reply()]);
    assert_eq!(state, HandshakeState::Done(b"-RN0.0.0-abcdefghijk".to_vec()));
    assert_eq!(action, HandshakeAction::Stop);
}

#[test]
fn three_partial_reads_give_the_same_peer_id_as_one() {
    let whole = reply();
    let (single, _) = feed(vec![whole.clone()]);
    let (chunked, action) =
        feed(vec![whole[..20].to_vec(), whole[20..50].to_vec(), whole[50..].to_vec()]);
    assert_eq!(whole[50..].len(), 18);
    assert_eq!(chunked, single);
    assert_eq!(chunked, HandshakeState::Done(b"-RN0.0.0-abcdefghijk".to_vec()));
    assert_eq!(action, HandshakeAction::Stop);
}

#[test]
fn reads_of_one_byte_each() {
    let whole = reply();
    let (state, _) = feed(whole.iter().map(|b| vec![*b]).collect());
    assert_eq!(state, HandshakeState::Done(b"-RN0.0.0-abcdefghijk".to_vec()));
}

#[test]
fn partial_read_asks_for_the_rest() {
    let whole = reply();
    let (state, action) = feed(vec![whole[..20].to_vec()]);
    assert_eq!(state, HandshakeState::AwaitingReply(whole[..20].to_vec()));
    assert_eq!(action, HandshakeAction::Receive(48));
    let (state, action) = feed(vec![whole[..20].to_vec(), whole[20..67].to_vec()]);
    assert_eq!(state, HandshakeState::AwaitingReply(whole[..67].to_vec()));
    assert_eq!(action, HandshakeAction::Receive(1));
}

#[test]
fn connection_closed_after_forty_bytes() {
    let whole = reply();
    let (state, action) = feed(vec![whole[..40].to_vec(), vec![]]);
    assert_eq!(state, HandshakeState::Failed(Error::ConnectionClosed));
    assert_eq!(action, HandshakeAction::Stop);
}

#[test]
fn connection_closed_at_once() {
    let (state, _) = feed(vec![vec![]]);
    assert_eq!(state, HandshakeState::Failed(Error::ConnectionClosed));
}

#[test]
fn more_than_the_answer_breaks_the_protocol() {
    let mut long = reply();
    long.push(0);
    let (state, action) = feed(vec![long]);
    assert_eq!(state, HandshakeState::Failed(Error::ProtocolError));
    assert_eq!(action, HandshakeAction::Stop);

    let whole = reply();
    let (state, _) = feed(vec![whole[..60].to_vec(), whole[..9].to_vec()]);
    assert_eq!(state, HandshakeState::Failed(Error::ProtocolError));
}

#[test]
fn not_ready_means_try_again() {
    let whole = reply();
    let (state, _) = feed(vec![whole[..30].to_vec()]);
    let (state, action) = handshake_step(state, HandshakeEvent::NotReady, &INFO_HASH, &PEER_ID);
    assert_eq!(state, HandshakeState::AwaitingReply(whole[..30].to_vec()));
    assert_eq!(action, HandshakeAction::Receive(38));
    let (state, action) =
        handshake_step(state, HandshakeEvent::Received(whole[30..].to_vec()), &INFO_HASH, &PEER_ID);
    assert_eq!(state, HandshakeState::Done(b"-RN0.0.0-abcdefghijk".to_vec()));
    assert_eq!(action, HandshakeAction::Stop);
}

#[test]
fn running_out_of_time_fails_the_handshake() {
    let (state, action) =
        handshake_step(HandshakeState::Connecting, HandshakeEvent::TimedOut, &INFO_HASH, &PEER_ID);
    assert_eq!(state, HandshakeState::Failed(Error::Timeout));
    assert_eq!(action, HandshakeAction::Stop);
    let (state, _) = feed(vec![reply()[..10].to_vec()]);
    let (state, action) = handshake_step(state, HandshakeEvent::TimedOut, &INFO_HASH, &PEER_ID);
    assert_eq!(state, HandshakeState::Failed(Error::Timeout));
    assert_eq!(action, HandshakeAction::Stop);
}

#[test]
fn final_states_stay_as_they_are() {
    let done = HandshakeState::Done(PEER_ID.to_vec());
    let (state, action) =
        handshake_step(done, HandshakeEvent::Received(vec![1, 2, 3]), &INFO_HASH, &PEER_ID);
    assert_eq!(state, HandshakeState::Done(PEER_ID.to_vec()));
    assert_eq!(action, HandshakeAction::Stop);
    let failed = HandshakeState::Failed(Error::ConnectionClosed);
    let (state, action) = handshake_step(failed, HandshakeEvent::Connected, &INFO_HASH, &PEER_ID);
    assert_eq!(state, HandshakeState::Failed(Error::ConnectionClosed));
    assert_eq!(action, HandshakeAction::Stop);
}

#[test]
fn a_signal_that_is_not_waited_for_changes_nothing() {
    let (state, action) = handshake_step(
        HandshakeState::Connecting,
        HandshakeEvent::Received(vec![1]),
        &INFO_HASH,
        &PEER_ID,
    );
    assert_eq!(state, HandshakeState::Connecting);
    assert_eq!(action, HandshakeAction::Connect);
    let (state, action) = handshake_step(
        HandshakeState::AwaitingReply(vec![1, 2]),
        HandshakeEvent::ConnectFailed,
        &INFO_HASH,
        &PEER_ID,
    );
    assert_eq!(state, HandshakeState::AwaitingReply(vec![1, 2]));
    assert_eq!(action, HandshakeAction::Receive(66));
}
