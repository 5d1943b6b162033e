use bittorrent::order::{key_equal, key_less};
use bittorrent::value::{Bencoded, Dictionary};

fn keys(d: &Dictionary) -> Vec<Vec<u8>> {
    let mut out = Vec::new();
    let mut i = 0;
    while let Some((k, _)) = d.entry(i) {
        out.push(k.clone());
        i += 1;
    }
    out
}

#[test]
fn new_dictionary_is_empty() {
    let d = Dictionary::new();
    assert_eq!(d.len(), 0);
    assert_eq!(d.entry(0), None);
    assert_eq!(d.get(b"a"), None);
}

#[test]
fn keys_come_out_ascending_whatever_the_order_of_insertion() {
    let orders: Vec<Vec<&[u8]>> = vec![
        vec![b"a", b"b", b"c"],
        vec![b"a", b"c", b"b"],
        vec![b"b", b"a", b"c"],
        vec![b"b", b"c", b"a"],
        vec![b"c", b"a", b"b"],
        vec![b"c", b"b", b"a"],
    ];
    for order in orders {
        let mut d = Dictionary::new();
        for k in order {
            d.insert(k.to_vec(), Bencoded::Integer(k[0] as i64));
        }
        assert_eq!(keys(&d), vec![b"a".to_vec(), b"b".to_vec(), b"c".to_vec()]);
        assert_eq!(Bencoded::Dict(d).encode(), b"d1:ai97e1:bi98e1:ci99ee".to_vec());
    }
}

#[test]
fn keys_are_ordered_as_raw_bytes() {
    let mut d = Dictionary::new();
    d.insert(vec![0xff], Bencoded::Integer(1));
    d.insert(b"b".to_vec(), Bencoded::Integer(2));
    d.insert(b"B".to_vec(), Bencoded::Integer(3));
    d.insert(b"ab".to_vec(), Bencoded::Integer(4));
    d.insert(b"a".to_vec(), Bencoded::Integer(5));
    d.insert(b"".to_vec(), Bencoded::Integer(6));
    assert_eq!(
        keys(&d),
        vec![b"".to_vec(), b"B".to_vec(), b"a".to_vec(), b"ab".to_vec(), b"b".to_vec(), vec![0xff]]
    );
}

#[test]
fn insert_replaces_the_value_of_a_key() {
    let mut d = Dictionary::new();
    d.insert(b"k".to_vec(), Bencoded::Integer(1));
    d.insert(b"j".to_vec(), Bencoded::Integer(0));
    d.insert(b"k".to_vec(), Bencoded::Integer(2));
    assert_eq!(d.len(), 2);
    assert_eq!(d.get(b"k"), Some(&Bencoded::Integer(2)));
    assert_eq!(d.get(b"j"), Some(&Bencoded::Integer(0)));
}

#[test]
fn entry_gives_key_and_value_by_position() {
    let mut d = Dictionary::new();
    d.insert(b"y".to_vec(), Bencoded::Integer(2));
    d.insert(b"x".to_vec(), Bencoded::Integer(1));
    assert_eq!(d.entry(0), Some((&b"x".to_vec(), &Bencoded::Integer(1))));
    assert_eq!(d.entry(1), Some((&b"y".to_vec(), &Bencoded::Integer(2))));
    assert_eq!(d.entry(2), None);
}

#[test]
fn byte_order_of_keys() {
    assert!(key_less(b"", b"a"));
    assert!(!key_less(b"", b""));
    assert!(key_less(b"a", b"ab"));
    assert!(!key_less(b"ab", b"a"));
    assert!(key_less(b"ab", b"b"));
    assert!(key_less(&[0x7f], &[0x80]));
    assert!(!key_less(b"same", b"same"));
    assert!(key_equal(b"same", b"same"));
    assert!(!key_equal(b"same", b"sama"));
    assert!(!key_equal(b"same", b"sam"));
    assert!(key_equal(b"", b""));
}
