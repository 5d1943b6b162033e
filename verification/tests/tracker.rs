use bittorrent::error::Error;
use bittorrent::text::integer_to_text;
use bittorrent::tracker::{
    announce_parameters, parse_announce_response, parse_peers, with_info_hash, PeerAddress,
};

#[test]
fn one_compact_peer() {
    let peers = parse_peers(&[192, 168, 1, 1, 0x1A, 0xE1]).unwrap();
    assert_eq!(peers, vec![PeerAddress { ip: [192, 168, 1, 1], port: 6881 }]);
}

#[test]
fn several_compact_peers() {
    let peers = parse_peers(&[10, 0, 0, 1, 0, 80, 255, 255, 255, 255, 255, 255, 1, 2, 3, 4, 1, 0])
        .unwrap();
    assert_eq!(
        peers,
        vec![
            PeerAddress { ip: [10, 0, 0, 1], port: 80 },
            PeerAddress { ip: [255, 255, 255, 255], port: 65535 },
            PeerAddress { ip: [1, 2, 3, 4], port: 256 },
        ]
    );
}

#[test]
fn no_compact_peers() {
    assert_eq!(parse_peers(&[]), Ok(vec![]));
}

#[test]
fn compact_peers_of_a_wrong_length() {
    assert_eq!(parse_peers(&[192, 168, 1, 1, 0x1A, 0xE1, 0]), Err(Error::ProtocolError));
    assert_eq!(parse_peers(&[1]), Err(Error::ProtocolError));
    assert_eq!(parse_peers(&[1, 2, 3, 4, 5]), Err(Error::ProtocolError));
}

#[test]
fn response_with_peers() {
    let mut body =
        b"d8:completei1e10:incompletei0e8:intervali60e12:min intervali30e5:peers6:".to_vec();
    body.extend_from_slice(&[192, 168, 1, 1, 0x1A, 0xE1]);
    body.push(b'e');
    assert_eq!(
        parse_announce_response(&body),
        Ok(vec![PeerAddress { ip: [192, 168, 1, 1], port: 6881 }])
    );
}

#[test]
fn response_with_a_failure_reason() {
    assert_eq!(
        parse_announce_response(b"d14:failure reason11:bad requeste"),
        Err(Error::TrackerError(b"bad request".to_vec()))
    );
}

#[test]
fn failure_reason_wins_over_peers() {
    assert_eq!(
        parse_announce_response(b"d14:failure reason4:nope5:peers0:e"),
        Err(Error::TrackerError(b"nope".to_vec()))
    );
}

#[test]
fn failure_reason_that_is_no_byte_string_is_passed_over() {
    assert_eq!(parse_announce_response(b"d14:failure reasoni1e5:peers0:e"), Ok(vec![]));
}

#[test]
fn response_without_peers() {
    assert_eq!(parse_announce_response(b"d8:intervali60ee"), Err(Error::ProtocolError));
    assert_eq!(parse_announce_response(b"de"), Err(Error::ProtocolError));
}

#[test]
fn response_whose_peers_are_no_byte_string() {
    assert_eq!(parse_announce_response(b"d5:peersi1ee"), Err(Error::ProtocolError));
    assert_eq!(parse_announce_response(b"d5:peerslee"), Err(Error::ProtocolError));
}

#[test]
fn response_whose_peers_have_a_wrong_length() {
    assert_eq!(parse_announce_response(b"d5:peers7:abcdefge"), Err(Error::ProtocolError));
}

#[test]
fn response_that_is_no_dictionary() {
    assert_eq!(parse_announce_response(b"i1e"), Err(Error::ProtocolError));
    assert_eq!(parse_announce_response(b"le"), Err(Error::ProtocolError));
}

#[test]
fn response_that_is_no_bencode() {
    assert_eq!(parse_announce_response(b"<html>"), Err(Error::MalformedInput));
    assert_eq!(parse_announce_response(b""), Err(Error::MalformedInput));
}

#[test]
fn parameters_of_an_announce() {
    let params = announce_parameters("00112233445566778899", 92063, 6881);
    let pairs: Vec<(&str, &str)> =
        params.iter().map(|p| (p.name.as_str(), p.value.as_str())).collect();
    assert_eq!(
        pairs,
        vec![
            ("peer_id", "00112233445566778899"),
            ("left", "92063"),
            ("port", "6881"),
            ("uploaded", "0"),
            ("downloaded", "0"),
            ("compact", "1"),
        ]
    );
}

#[test]
fn query_with_the_info_hash_behind_it() {
    let hash: Vec<u8> = vec![0x12, b'a', 0xff, b'~', b' '];
    assert_eq!(
        with_info_hash("peer_id=x&left=1", &hash),
        "peer_id=x&left=1&info_hash=%12a%FF~%20"
    );
}

#[test]
fn integers_as_text() {
    assert_eq!(integer_to_text(0), "0");
    assert_eq!(integer_to_text(7), "7");
    assert_eq!(integer_to_text(10), "10");
    assert_eq!(integer_to_text(-1), "-1");
    assert_eq!(integer_to_text(92063), "92063");
    assert_eq!(integer_to_text(i64::MAX), "9223372036854775807");
    assert_eq!(integer_to_text(i64::MIN), "-9223372036854775808");
}
