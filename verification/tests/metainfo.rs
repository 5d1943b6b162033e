use bittorrent::error::Error;
use bittorrent::metainfo::{percent_encode, InfoDict, Metainfo};

fn pieces() -> Vec<u8> {
    (0u8..40).collect()
}

fn info_bytes() -> Vec<u8> {
    let mut info = b"d6:lengthi92063e4:name10:sample.txt12:piece lengthi32768e6:pieces40:".to_vec();
    info.extend_from_slice(&pieces());
    info.push(b'e');
    info
}

fn torrent_bytes() -> Vec<u8> {
    let mut torrent = b"d8:announce31:http://tracker.example/announce4:info".to_vec();
    torrent.extend_from_slice(&info_bytes());
    torrent.push(b'e');
    torrent
}

#[test]
fn parses_the_fields_of_a_torrent() {
    let m = Metainfo::parse(&torrent_bytes()).unwrap();
    assert_eq!(m.announce, "http://tracker.example/announce");
    assert_eq!(m.info.name, "sample.txt");
    assert_eq!(m.info.piece_length, 32768);
    assert_eq!(m.info.length, 92063);
    assert_eq!(m.info.pieces, pieces());
    assert_eq!(m.info_encoding, info_bytes());
}

#[test]
fn info_hash_of_a_known_torrent() {
    let m = Metainfo::parse(&torrent_bytes()).unwrap();
    assert_eq!(
        m.info_hash(),
        [69, 10, 14, 164, 105, 197, 165, 120, 159, 44, 40, 134, 74, 25, 80, 176, 233, 28, 141, 126]
    );
    assert_eq!(m.info_hash_hex(), "450a0ea469c5a5789f2c28864a1950b0e91c8d7e");
}

#[test]
fn info_hash_is_the_same_on_every_call() {
    let a = Metainfo::parse(&torrent_bytes()).unwrap();
    let b = Metainfo::parse(&torrent_bytes()).unwrap();
    assert_eq!(a.info_hash(), a.info_hash());
    assert_eq!(a.info_hash(), b.info_hash());
}

#[test]
fn info_hash_covers_keys_without_a_field() {
    let torrent =
        b"d8:announce1:u4:infod6:lengthi5e4:name1:a12:piece lengthi4e6:pieces0:7:privatei1eee";
    let m = Metainfo::parse(torrent).unwrap();
    assert_eq!(m.info_hash_hex(), "f8863413cd460fdc2378cc4cbc6b0626aae621bd");
}

#[test]
fn info_hash_of_an_unsorted_info_dictionary_is_that_of_its_canonical_form() {
    let torrent =
        b"d4:infod4:name1:a6:lengthi5e7:privatei1e6:pieces0:12:piece lengthi4ee8:announce1:ue";
    let m = Metainfo::parse(torrent).unwrap();
    assert_eq!(m.info_hash_hex(), "f8863413cd460fdc2378cc4cbc6b0626aae621bd");
}

#[test]
fn info_hash_of_an_empty_encoding_is_the_digest_of_nothing() {
    let m = Metainfo {
        announce: String::new(),
        info: InfoDict { name: String::new(), piece_length: 0, pieces: vec![], length: 0 },
        info_encoding: vec![],
    };
    assert_eq!(m.info_hash_hex(), "da39a3ee5e6b4b0d3255bfef95601890afd80709");
}

#[test]
fn piece_hashes_in_hexadecimal() {
    let m = Metainfo::parse(&torrent_bytes()).unwrap();
    assert_eq!(
        m.piece_hashes_hex(),
        vec![
            "000102030405060708090a0b0c0d0e0f10111213".to_string(),
            "1415161718191a1b1c1d1e1f2021222324252627".to_string(),
        ]
    );
}

#[test]
fn piece_hashes_of_no_pieces() {
    let torrent = b"d8:announce1:u4:infod6:lengthi5e4:name1:a12:piece lengthi4e6:pieces0:ee";
    let m = Metainfo::parse(torrent).unwrap();
    assert_eq!(m.piece_hashes_hex(), Vec::<String>::new());
}

#[test]
fn piece_hashes_give_a_short_last_run_as_it_is() {
    let m = Metainfo {
        announce: String::new(),
        info: InfoDict {
            name: String::new(),
            piece_length: 0,
            pieces: (0u8..22).collect(),
            length: 0,
        },
        info_encoding: vec![],
    };
    assert_eq!(
        m.piece_hashes_hex(),
        vec!["000102030405060708090a0b0c0d0e0f10111213".to_string(), "1415".to_string()]
    );
}

#[test]
fn bytes_behind_the_metainfo_are_not_looked_at() {
    let mut torrent = torrent_bytes();
    torrent.extend_from_slice(b"trailing");
    assert_eq!(Metainfo::parse(&torrent).unwrap(), Metainfo::parse(&torrent_bytes()).unwrap());
}

#[test]
fn malformed_torrent() {
    assert_eq!(Metainfo::parse(b""), Err(Error::MalformedInput));
    assert_eq!(Metainfo::parse(b"d8:announce"), Err(Error::MalformedInput));
}

#[test]
fn torrent_that_is_no_dictionary() {
    assert_eq!(Metainfo::parse(b"i1e"), Err(Error::SchemaError));
    assert_eq!(Metainfo::parse(b"le"), Err(Error::SchemaError));
    assert_eq!(Metainfo::parse(b"4:spam"), Err(Error::SchemaError));
}

#[test]
fn torrent_with_a_key_missing() {
    let cases: Vec<&[u8]> = vec![
        b"de",
        b"d4:infod6:lengthi5e4:name1:a12:piece lengthi4e6:pieces0:ee",
        b"d8:announce1:ue",
        b"d8:announce1:u4:infod4:name1:a12:piece lengthi4e6:pieces0:ee",
        b"d8:announce1:u4:infod6:lengthi5e12:piece lengthi4e6:pieces0:ee",
        b"d8:announce1:u4:infod6:lengthi5e4:name1:a6:pieces0:ee",
        b"d8:announce1:u4:infod6:lengthi5e4:name1:a12:piece lengthi4eee",
    ];
    for case in cases {
        assert_eq!(Metainfo::parse(case), Err(Error::SchemaError));
    }
}

#[test]
fn torrent_with_a_field_of_the_wrong_kind() {
    let cases: Vec<&[u8]> = vec![
        b"d8:announcei1e4:infod6:lengthi5e4:name1:a12:piece lengthi4e6:pieces0:ee",
        b"d8:announce1:u4:infoi1ee",
        b"d8:announce1:u4:infod6:length1:54:name1:a12:piece lengthi4e6:pieces0:ee",
        b"d8:announce1:u4:infod6:lengthi5e4:namei1e12:piece lengthi4e6:pieces0:ee",
        b"d8:announce1:u4:infod6:lengthi5e4:name1:a12:piece lengthle6:pieces0:ee",
        b"d8:announce1:u4:infod6:lengthi5e4:name1:a12:piece lengthi4e6:piecesi0eee",
    ];
    for case in cases {
        assert_eq!(Metainfo::parse(case), Err(Error::SchemaError));
    }
}

#[test]
fn torrent_whose_pieces_are_no_whole_digests() {
    let torrent = b"d8:announce1:u4:infod6:lengthi5e4:name1:a12:piece lengthi4e6:pieces3:abcee";
    assert_eq!(Metainfo::parse(torrent), Err(Error::SchemaError));
}

#[test]
fn torrent_whose_announce_or_name_is_no_text() {
    let mut torrent = b"d8:announce2:".to_vec();
    torrent.extend_from_slice(&[0xc3, 0x28]);
    torrent.extend_from_slice(b"4:infod6:lengthi5e4:name1:a12:piece lengthi4e6:pieces0:ee");
    assert_eq!(Metainfo::parse(&torrent), Err(Error::SchemaError));

    let mut torrent = b"d8:announce1:u4:infod6:lengthi5e4:name1:".to_vec();
    torrent.push(0xff);
    torrent.extend_from_slice(b"12:piece lengthi4e6:pieces0:ee");
    assert_eq!(Metainfo::parse(&torrent), Err(Error::SchemaError));
}

#[test]
fn announce_and_name_may_hold_text_beyond_ascii() {
    let name = "fichier-\u{e9}\u{20ac}.txt";
    let mut torrent = b"d8:announce1:u4:infod6:lengthi5e4:name".to_vec();
    torrent.extend_from_slice(format!("{}:", name.len()).as_bytes());
    torrent.extend_from_slice(name.as_bytes());
    torrent.extend_from_slice(b"12:piece lengthi4e6:pieces0:ee");
    let m = Metainfo::parse(&torrent).unwrap();
    assert_eq!(m.info.name, name);
}

#[test]
fn percent_encoding_escapes_every_byte_of_a_hash_of_low_bytes() {
    let hash: Vec<u8> = (0x00u8..=0x13).collect();
    assert_eq!(hash.len(), 20);
    assert_eq!(
        percent_encode(&hash),
        "%00%01%02%03%04%05%06%07%08%09%0A%0B%0C%0D%0E%0F%10%11%12%13"
    );
}

#[test]
fn percent_encoding_keeps_unreserved_bytes() {
    assert_eq!(percent_encode(b"AZaz09-._~"), "AZaz09-._~");
    assert_eq!(percent_encode(b""), "");
}

#[test]
fn percent_encoding_escapes_the_neighbours_of_unreserved_bytes() {
    assert_eq!(percent_encode(b"/:@[`{"), "%2F%3A%40%5B%60%7B");
    assert_eq!(percent_encode(b" +,%&=?"), "%20%2B%2C%25%26%3D%3F");
    assert_eq!(percent_encode(&[0x7f, 0x80, 0xff]), "%7F%80%FF");
}

#[test]
fn percent_encoding_of_a_digest() {
    let m = Metainfo::parse(&torrent_bytes()).unwrap();
    assert_eq!(percent_encode(&m.info_hash()), "E%0A%0E%A4i%C5%A5x%9F%2C%28%86J%19P%B0%E9%1C%8D~");
}
