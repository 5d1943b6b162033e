//! What goes to an HTTP tracker and what comes back from it.

use crate::decode::{decode_bencoded_value, decoded};
use crate::error::{Error, Failure};
use crate::metainfo::{bytes_at, percent_encode, percent_encoded};
use crate::text::{integer_text, integer_to_text};
use crate::value::{Bencoded, Term};
use vstd::prelude::*;
use vstd::slice::slice_to_vec;
use vstd::string::*;

verus! {

/// The number of bytes of one peer in the compact peer list.
pub const PEER_RECORD_LEN: usize = 6;

/// The address of a peer: an IPv4 address and a port.
#[derive(Clone, Copy, Debug, PartialEq, Eq)]
pub struct PeerAddress {
    pub ip: [u8; 4],
    pub port: u16,
}

/// A peer address as plain values.
pub struct PeerFields {
    pub ip: Seq<u8>,
    pub port: int,
}

impl View for PeerAddress {
    type V = PeerFields;

    open spec fn view(&self) -> PeerFields {
        PeerFields { ip: self.ip@, port: self.port as int }
    }
}

/// The peer in the record that starts at `6 * index`: four address bytes,
/// then the port with its high byte first.
pub open spec fn peer_at(peers: Seq<u8>, index: int) -> PeerFields {
    PeerFields {
        ip: peers.subrange(6 * index, 6 * index + 4),
        port: peers[6 * index + 4] * 256 + peers[6 * index + 5],
    }
}

/// The peers of a compact peer list, or `ProtocolError` where its length is no
/// multiple of 6.
pub open spec fn peers_listed(peers: Seq<u8>) -> Result<Seq<PeerFields>, Failure> {
    if peers.len() % 6 == 0 {
        Ok(Seq::new(peers.len() / 6, |i: int| peer_at(peers, i)))
    } else {
        Err(Failure::ProtocolError)
    }
}

/// What a tracker's answer means. An answer that is no bencode is malformed.
/// A dictionary with a byte string under `failure reason` is the tracker's
/// refusal, with that reason. Any other answer must be a dictionary with a
/// compact peer list under `peers`; keys beside these are not looked at.
pub open spec fn announce_outcome(body: Seq<u8>) -> Result<Seq<PeerFields>, Failure> {
    match decoded(body) {
        None => Err(Failure::MalformedInput),
        Some((Term::Dict(d), _)) => match bytes_at(d, "failure reason".spec_bytes()) {
            Some(reason) => Err(Failure::TrackerError(reason)),
            None => match bytes_at(d, "peers".spec_bytes()) {
                Some(peers) => peers_listed(peers),
                None => Err(Failure::ProtocolError),
            },
        },
        Some(_) => Err(Failure::ProtocolError),
    }
}

/// The views of a sequence of peer addresses.
pub open spec fn peers_view(peers: Seq<PeerAddress>) -> Seq<PeerFields> {
    Seq::new(peers.len(), |i: int| peers[i]@)
}

/// Slices a compact peer list into its 6-byte records.
pub fn parse_peers(peers: &[u8]) -> (r: Result<Vec<PeerAddress>, Error>)
    ensures
        match r {
            Ok(list) => peers_listed(peers@) == Ok::<Seq<PeerFields>, Failure>(peers_view(list@)),
            Err(e) => peers_listed(peers@) == Err::<Seq<PeerFields>, Failure>(e@),
        },
{
    if peers.len() % PEER_RECORD_LEN != 0 {
        return Err(Error::ProtocolError);
    }
    let count = peers.len() / PEER_RECORD_LEN;
    let mut list: Vec<PeerAddress> = Vec::new();
    let mut k: usize = 0;
    while k < count
        invariant
            peers.len() == 6 * count,
            k <= count,
            list.len() == k,
            forall|i: int| 0 <= i < k ==> (#[trigger] list[i])@ == peer_at(peers@, i),
        decreases count - k,
    {
        let at = k * PEER_RECORD_LEN;
        let ip = [peers[at], peers[at + 1], peers[at + 2], peers[at + 3]];
        let port: u16 = peers[at + 4] as u16 * 256 + peers[at + 5] as u16;
        let peer = PeerAddress { ip, port };
        assert(peer@.ip =~= peer_at(peers@, k as int).ip);
        list.push(peer);
        k += 1;
    }
    assert(peers_view(list@) =~= peers_listed(peers@)->Ok_0);
    Ok(list)
}

/// Reads the answer of a tracker: the peers that it lists, or the failure
/// that it reports or is.
pub fn parse_announce_response(body: &[u8]) -> (r: Result<Vec<PeerAddress>, Error>)
    ensures
        match r {
            Ok(list) => announce_outcome(body@) == Ok::<Seq<PeerFields>, Failure>(
                peers_view(list@),
            ),
            Err(e) => announce_outcome(body@) == Err::<Seq<PeerFields>, Failure>(e@),
        },
{
    let top = match decode_bencoded_value(body) {
        Ok((top, _)) => top,
        Err(_) => {
            return Err(Error::MalformedInput);
        },
    };
    let d = match &top {
        Bencoded::Dict(d) => d,
        _ => {
            return Err(Error::ProtocolError);
        },
    };
    match d.get("failure reason".as_bytes()) {
        Some(Bencoded::String(reason)) => {
            return Err(Error::TrackerError(slice_to_vec(reason.as_slice())));
        },
        _ => {},
    }
    match d.get("peers".as_bytes()) {
        Some(Bencoded::String(peers)) => parse_peers(peers.as_slice()),
        _ => Err(Error::ProtocolError),
    }
}

/// One parameter of a query, by name and value.
#[derive(Debug, PartialEq, Eq)]
pub struct QueryParameter {
    pub name: String,
    pub value: String,
}

/// The parameter `name` with the value `value`.
fn parameter(name: &str, value: String) -> (p: QueryParameter)
    ensures
        p.name@ == name@,
        p.value@ == value@,
{
    QueryParameter { name: String::from_str(name), value }
}

/// The parameters of an announce beside the info-hash, in the order in which
/// they are sent.
pub open spec fn announce_parameters_of(peer_id: Seq<char>, left: int, port: int) -> Seq<
    (Seq<char>, Seq<char>),
> {
    seq![
        ("peer_id"@, peer_id),
        ("left"@, integer_text(left)),
        ("port"@, integer_text(port)),
        ("uploaded"@, "0"@),
        ("downloaded"@, "0"@),
        ("compact"@, "1"@),
    ]
}

/// The parameters of an announce beside the info-hash: the client's peer id,
/// the bytes that are left to fetch, the port on which the client listens, and
/// the fixed `uploaded=0`, `downloaded=0` and `compact=1`.
pub fn announce_parameters(peer_id: &str, left: i64, port: u16) -> (params: Vec<
    QueryParameter,
>)
    ensures
        params.len() == 6,
        forall|i: int|
            0 <= i < 6 ==> ((#[trigger] params[i]).name@, params[i].value@)
                == announce_parameters_of(peer_id@, left as int, port as int)[i],
{
    let mut params: Vec<QueryParameter> = Vec::new();
    params.push(parameter("peer_id", String::from_str(peer_id)));
    params.push(parameter("left", integer_to_text(left)));
    params.push(parameter("port", integer_to_text(port as i64)));
    params.push(parameter("uploaded", String::from_str("0")));
    params.push(parameter("downloaded", String::from_str("0")));
    params.push(parameter("compact", String::from_str("1")));
    params
}

/// A query with the info-hash behind it: the hash is percent-encoded byte by
/// byte and appended as it is, so that no generic encoder escapes it again.
pub fn with_info_hash(query: &str, info_hash: &[u8]) -> (full: String)
    ensures
        full@ == query@ + "&info_hash="@ + percent_encoded(info_hash@),
{
    let mut full = String::from_str(query);
    full.append("&info_hash=");
    let hash = percent_encode(info_hash);
    full.append(hash.as_str());
    full
}

} // verus!
