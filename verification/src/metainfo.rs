//! The metainfo of a torrent: the typed fields read out of the decoded
//! dictionary, the info-hash, and the text forms that a client needs of them.

use crate::decode::{decode_bencoded_value, decoded};
use crate::digest::{hex_encode, hex_text, sha1, sha1_digest};
use crate::encode::encoded;
use crate::error::Error;
use crate::text::{push_char, text_from_utf8};
use crate::value::{lookup, Bencoded, Term};
use vstd::prelude::*;
use vstd::slice::{slice_subrange, slice_to_vec};
use vstd::string::*;
use vstd::utf8::{decode_utf8, valid_utf8};

verus! {

/// The number of bytes of one piece's SHA-1 digest.
pub const PIECE_HASH_LEN: usize = 20;

/// The `info` dictionary of a torrent.
#[derive(Debug, PartialEq, Eq)]
pub struct InfoDict {
    pub name: String,
    pub piece_length: i64,
    pub pieces: Vec<u8>,
    pub length: i64,
}

/// The metainfo of a torrent with a single file.
#[derive(Debug, PartialEq, Eq)]
pub struct Metainfo {
    pub announce: String,
    pub info: InfoDict,
    /// The canonical encoding of the whole `info` dictionary, with the keys
    /// that have no field here.
    pub info_encoding: Vec<u8>,
}

/// A metainfo as plain values.
pub struct MetainfoFields {
    pub announce: Seq<char>,
    pub name: Seq<char>,
    pub piece_length: int,
    pub pieces: Seq<u8>,
    pub length: int,
    pub info_encoding: Seq<u8>,
}

impl View for Metainfo {
    type V = MetainfoFields;

    open spec fn view(&self) -> MetainfoFields {
        MetainfoFields {
            announce: self.announce@,
            name: self.info.name@,
            piece_length: self.info.piece_length as int,
            pieces: self.info.pieces@,
            length: self.info.length as int,
            info_encoding: self.info_encoding@,
        }
    }
}

/// The byte string under `key` in `d`, if `d` has one there.
pub open spec fn bytes_at(d: Seq<(Seq<u8>, Term)>, key: Seq<u8>) -> Option<Seq<u8>> {
    match lookup(d, key) {
        Some(Term::Bytes(b)) => Some(b),
        _ => None,
    }
}

/// The integer under `key` in `d`, if `d` has one there.
pub open spec fn int_at(d: Seq<(Seq<u8>, Term)>, key: Seq<u8>) -> Option<int> {
    match lookup(d, key) {
        Some(Term::Int(i)) => Some(i),
        _ => None,
    }
}

/// The dictionary under `key` in `d`, if `d` has one there.
pub open spec fn dict_at(d: Seq<(Seq<u8>, Term)>, key: Seq<u8>) -> Option<
    Seq<(Seq<u8>, Term)>,
> {
    match lookup(d, key) {
        Some(Term::Dict(inner)) => Some(inner),
        _ => None,
    }
}

/// What makes a term the metainfo of a torrent: a dictionary with a text
/// `announce` and a dictionary `info`, which holds a text `name`, the integers
/// `piece length` and `length`, and a byte string `pieces` made of whole
/// 20-byte digests.
pub open spec fn is_metainfo(top: Term) -> bool {
    &&& top matches Term::Dict(d)
    &&& bytes_at(d, "announce".spec_bytes()) matches Some(announce)
    &&& valid_utf8(announce)
    &&& dict_at(d, "info".spec_bytes()) matches Some(info)
    &&& bytes_at(info, "name".spec_bytes()) matches Some(name)
    &&& valid_utf8(name)
    &&& int_at(info, "piece length".spec_bytes()) is Some
    &&& bytes_at(info, "pieces".spec_bytes()) matches Some(pieces)
    &&& pieces.len() % 20 == 0
    &&& int_at(info, "length".spec_bytes()) is Some
}

/// The fields of a term that is a metainfo.
pub open spec fn metainfo_fields(top: Term) -> MetainfoFields {
    let d = top->Dict_0;
    let info = dict_at(d, "info".spec_bytes()).unwrap();
    MetainfoFields {
        announce: decode_utf8(bytes_at(d, "announce".spec_bytes()).unwrap()),
        name: decode_utf8(bytes_at(info, "name".spec_bytes()).unwrap()),
        piece_length: int_at(info, "piece length".spec_bytes()).unwrap(),
        pieces: bytes_at(info, "pieces".spec_bytes()).unwrap(),
        length: int_at(info, "length".spec_bytes()).unwrap(),
        info_encoding: encoded(Term::Dict(info)),
    }
}

/// Whether a byte may stand unescaped in a URL: a letter, a digit, or one of
/// `-`, `.`, `_` and `~`.
pub open spec fn is_unreserved(b: u8) -> bool {
    ||| 48 <= b <= 57
    ||| 65 <= b <= 90
    ||| 97 <= b <= 122
    ||| b == 45
    ||| b == 46
    ||| b == 95
    ||| b == 126
}

/// The upper-case hexadecimal digit for a value below 16.
pub open spec fn upper_hex_digit(n: u8) -> char {
    if n < 10 {
        (48 + n) as u8 as char
    } else {
        (55 + n) as u8 as char
    }
}

/// One byte in a URL: itself where it is unreserved, else `%` and its two
/// upper-case hexadecimal digits.
pub open spec fn escaped(b: u8) -> Seq<char> {
    if is_unreserved(b) {
        seq![b as char]
    } else {
        seq!['%', upper_hex_digit(b / 16), upper_hex_digit(b % 16)]
    }
}

/// The bytes of `bytes` in a URL, each escaped where it must be.
pub open spec fn percent_encoded(bytes: Seq<u8>) -> Seq<char>
    decreases bytes.len(),
{
    if bytes.len() == 0 {
        Seq::empty()
    } else {
        percent_encoded(bytes.drop_last()) + escaped(bytes.last())
    }
}

/// The upper-case hexadecimal digit for `n`.
fn upper_hex(n: u8) -> (c: char)
    requires
        n < 16,
    ensures
        c == upper_hex_digit(n),
{
    if n < 10 {
        (48 + n) as char
    } else {
        (55 + n) as char
    }
}

/// Percent-encodes raw bytes for a URL query: unreserved bytes stay as they
/// are, every other byte becomes `%XX` in upper-case hexadecimal.
pub fn percent_encode(bytes: &[u8]) -> (text: String)
    ensures
        text@ == percent_encoded(bytes@),
{
    let mut text = String::new();
    let mut i: usize = 0;
    assert(bytes@.take(0) =~= Seq::<u8>::empty());
    while i < bytes.len()
        invariant
            i <= bytes.len(),
            text@ == percent_encoded(bytes@.take(i as int)),
        decreases bytes.len() - i,
    {
        let b = bytes[i];
        let ghost before = text@;
        if (48 <= b && b <= 57) || (65 <= b && b <= 90) || (97 <= b && b <= 122) || b == 45 || b
            == 46 || b == 95 || b == 126 {
            push_char(&mut text, b as char);
        } else {
            push_char(&mut text, '%');
            push_char(&mut text, upper_hex(b / 16));
            push_char(&mut text, upper_hex(b % 16));
        }
        proof {
            assert(bytes@.take(i + 1).drop_last() =~= bytes@.take(i as int));
            assert(text@ =~= before + escaped(b));
        }
        i += 1;
    }
    assert(bytes@.take(i as int) =~= bytes@);
    text
}

/// The pieces' digests in `pieces`: the bytes from `20 * index` on, 20 of
/// them or as many as are left.
pub open spec fn piece_hash(pieces: Seq<u8>, index: int) -> Seq<u8> {
    pieces.subrange(
        20 * index,
        if 20 * index + 20 <= pieces.len() {
            20 * index + 20
        } else {
            pieces.len() as int
        },
    )
}

/// The number of digests in `pieces`, a short last one counted.
pub open spec fn piece_count(pieces: Seq<u8>) -> nat {
    (pieces.len() + 19) / 20
}

impl Metainfo {
    /// Reads a metainfo out of the bytes of a torrent file. Fails with
    /// `MalformedInput` where the bytes do not start with a bencoded term, and
    /// with `SchemaError` where that term is no metainfo. Bytes behind the term
    /// are not looked at.
    pub fn parse(bytes: &[u8]) -> (r: Result<Metainfo, Error>)
        ensures
            match r {
                Ok(m) => decoded(bytes@) matches Some((top, _)) && is_metainfo(top) && m@
                    == metainfo_fields(top),
                Err(e) => match decoded(bytes@) {
                    None => e == Error::MalformedInput,
                    Some((top, _)) => e == Error::SchemaError && !is_metainfo(top),
                },
            },
    {
        let top = match decode_bencoded_value(bytes) {
            Ok((top, _)) => top,
            Err(_) => {
                return Err(Error::MalformedInput);
            },
        };
        let d = match &top {
            Bencoded::Dict(d) => d,
            _ => {
                return Err(Error::SchemaError);
            },
        };
        let announce = match d.get("announce".as_bytes()) {
            Some(Bencoded::String(b)) => match text_from_utf8(slice_to_vec(b.as_slice())) {
                Some(text) => text,
                None => {
                    return Err(Error::SchemaError);
                },
            },
            _ => {
                return Err(Error::SchemaError);
            },
        };
        let info_value = match d.get("info".as_bytes()) {
            Some(v) => v,
            None => {
                return Err(Error::SchemaError);
            },
        };
        let info = match info_value {
            Bencoded::Dict(info) => info,
            _ => {
                return Err(Error::SchemaError);
            },
        };
        let name = match info.get("name".as_bytes()) {
            Some(Bencoded::String(b)) => match text_from_utf8(slice_to_vec(b.as_slice())) {
                Some(text) => text,
                None => {
                    return Err(Error::SchemaError);
                },
            },
            _ => {
                return Err(Error::SchemaError);
            },
        };
        let piece_length = match info.get("piece length".as_bytes()) {
            Some(Bencoded::Integer(i)) => *i,
            _ => {
                return Err(Error::SchemaError);
            },
        };
        let pieces = match info.get("pieces".as_bytes()) {
            Some(Bencoded::String(b)) => slice_to_vec(b.as_slice()),
            _ => {
                return Err(Error::SchemaError);
            },
        };
        if pieces.len() % PIECE_HASH_LEN != 0 {
            return Err(Error::SchemaError);
        }
        let length = match info.get("length".as_bytes()) {
            Some(Bencoded::Integer(i)) => *i,
            _ => {
                return Err(Error::SchemaError);
            },
        };
        let info_encoding = info_value.encode();
        let info = InfoDict { name, piece_length, pieces, length };
        Ok(Metainfo { announce, info, info_encoding })
    }

    /// The info-hash: the SHA-1 digest of the canonical encoding of the `info`
    /// dictionary.
    pub fn info_hash(&self) -> (hash: [u8; 20])
        ensures
            hash@ == sha1_digest(self.info_encoding@),
    {
        sha1(self.info_encoding.as_slice())
    }

    /// The info-hash in lower-case hexadecimal.
    pub fn info_hash_hex(&self) -> (text: String)
        ensures
            text@ == hex_text(sha1_digest(self.info_encoding@)),
    {
        let hash = self.info_hash();
        hex_encode(hash.as_slice())
    }

    /// The digest of each piece, in lower-case hexadecimal. A last run of
    /// fewer than 20 bytes is given as it is.
    pub fn piece_hashes_hex(&self) -> (hashes: Vec<String>)
        ensures
            hashes.len() == piece_count(self.info.pieces@),
            forall|i: int|
                0 <= i < hashes.len() ==> (#[trigger] hashes[i])@ == hex_text(
                    piece_hash(self.info.pieces@, i),
                ),
    {
        let pieces = self.info.pieces.as_slice();
        let count = if pieces.len() % PIECE_HASH_LEN == 0 {
            pieces.len() / PIECE_HASH_LEN
        } else {
            pieces.len() / PIECE_HASH_LEN + 1
        };
        let mut hashes: Vec<String> = Vec::new();
        let mut k: usize = 0;
        while k < count
            invariant
                pieces@ == self.info.pieces@,
                count == piece_count(pieces@),
                20 * count < pieces.len() + 20,
                k <= count,
                hashes.len() == k,
                forall|i: int|
                    0 <= i < hashes.len() ==> (#[trigger] hashes[i])@ == hex_text(
                        piece_hash(pieces@, i),
                    ),
            decreases count - k,
        {
            assert(20 * k + 20 <= 20 * count);
            let start = k * PIECE_HASH_LEN;
            let end = if pieces.len() - start >= PIECE_HASH_LEN {
                start + PIECE_HASH_LEN
            } else {
                pieces.len()
            };
            let text = hex_encode(slice_subrange(pieces, start, end));
            hashes.push(text);
            k += 1;
        }
        hashes
    }
}

} // verus!
