//! MVCC key codec and metadata codec tests: exact encodings, strict
//! decoding, round trips and order preservation.

use kvcore::error::Error;
use kvcore::metadata::{dec_ids, dec_mode, dec_u64, enc_ids, enc_mode, enc_u64, Mode};
use kvcore::mvcc_key::MvccKey;

fn round_trips(k: MvccKey) -> MvccKey {
    let encoded = k.encode();
    MvccKey::decode(&encoded).unwrap()
}

#[test]
fn test_key_exact_encodings() {
    assert_eq!(MvccKey::TxnNext.encode(), vec![0x01]);
    assert_eq!(
        MvccKey::TxnActive(1).encode(),
        vec![0x02, 0, 0, 0, 0, 0, 0, 0, 1]
    );
    assert_eq!(
        MvccKey::TxnSnapshot(0x0102).encode(),
        vec![0x03, 0, 0, 0, 0, 0, 0, 1, 2]
    );
    // Byte-string fields escape zero bytes and end with the terminator.
    assert_eq!(
        MvccKey::Metadata(vec![0xab, 0x00]).encode(),
        vec![0x05, 0xab, 0x00, 0xff, 0x00, 0x00]
    );
    assert_eq!(
        MvccKey::Record(vec![b'a'], 7).encode(),
        vec![0xff, b'a', 0x00, 0x00, 0, 0, 0, 0, 0, 0, 0, 7]
    );
    assert_eq!(
        MvccKey::TxnUpdate(3, vec![b'k']).encode(),
        vec![0x04, 0, 0, 0, 0, 0, 0, 0, 3, b'k', 0x00, 0x00]
    );
}

#[test]
fn test_key_round_trip_all_variants() {
    assert!(matches!(round_trips(MvccKey::TxnNext), MvccKey::TxnNext));
    match round_trips(MvccKey::TxnActive(u64::MAX)) {
        MvccKey::TxnActive(id) => assert_eq!(id, u64::MAX),
        _ => panic!("wrong variant"),
    }
    match round_trips(MvccKey::TxnSnapshot(0)) {
        MvccKey::TxnSnapshot(v) => assert_eq!(v, 0),
        _ => panic!("wrong variant"),
    }
    match round_trips(MvccKey::TxnUpdate(9, vec![0, 1, 0, 255])) {
        MvccKey::TxnUpdate(id, key) => {
            assert_eq!(id, 9);
            assert_eq!(key, vec![0, 1, 0, 255]);
        }
        _ => panic!("wrong variant"),
    }
    match round_trips(MvccKey::Metadata(vec![])) {
        MvccKey::Metadata(key) => assert_eq!(key, Vec::<u8>::new()),
        _ => panic!("wrong variant"),
    }
    match round_trips(MvccKey::Record(vec![0, 0, 7], 12345)) {
        MvccKey::Record(key, v) => {
            assert_eq!(key, vec![0, 0, 7]);
            assert_eq!(v, 12345);
        }
        _ => panic!("wrong variant"),
    }
}

#[test]
fn test_key_decode_rejects_invalid() {
    assert!(matches!(MvccKey::decode(&[]), Err(Error::MalformedKey)));
    assert!(matches!(
        MvccKey::decode(&[0x09]),
        Err(Error::UnknownKeyPrefix(0x09))
    ));
    assert!(matches!(
        MvccKey::decode(&[0x01, 0x00]),
        Err(Error::TrailingKeyBytes)
    ));
    assert!(matches!(
        MvccKey::decode(&[0x02, 1, 2]),
        Err(Error::MalformedKey)
    ));
    assert!(matches!(
        MvccKey::decode(&[0x02, 0, 0, 0, 0, 0, 0, 0, 1, 9]),
        Err(Error::TrailingKeyBytes)
    ));
    // A malformed escape: 0x00 followed by a byte that is neither the
    // terminator's second byte nor the escape marker.
    assert!(matches!(
        MvccKey::decode(&[0x05, 0x00, 0x07]),
        Err(Error::MalformedKey)
    ));
    // A missing terminator.
    assert!(matches!(
        MvccKey::decode(&[0x05, b'a']),
        Err(Error::MalformedKey)
    ));
}

#[test]
fn test_key_order_preservation() {
    // Within each tag, logical order matches byte order of the encodings.
    assert!(MvccKey::TxnActive(1).encode() < MvccKey::TxnActive(2).encode());
    assert!(MvccKey::TxnActive(255).encode() < MvccKey::TxnActive(256).encode());
    assert!(MvccKey::TxnSnapshot(7).encode() < MvccKey::TxnSnapshot(0x100000000).encode());
    assert!(
        MvccKey::Metadata(vec![1, 2]).encode() < MvccKey::Metadata(vec![1, 2, 0]).encode()
    );
    assert!(MvccKey::Metadata(vec![0]).encode() < MvccKey::Metadata(vec![1]).encode());
    assert!(
        MvccKey::Record(vec![b'a'], 9).encode() < MvccKey::Record(vec![b'a', 0], 1).encode()
    );
    assert!(MvccKey::Record(vec![b'a'], 1).encode() < MvccKey::Record(vec![b'a'], 2).encode());
    assert!(
        MvccKey::TxnUpdate(1, vec![9]).encode() < MvccKey::TxnUpdate(2, vec![0]).encode()
    );
    // Tags group: every active marker sorts after the counter and before
    // every snapshot.
    assert!(MvccKey::TxnNext.encode() < MvccKey::TxnActive(0).encode());
    assert!(MvccKey::TxnActive(u64::MAX).encode() < MvccKey::TxnSnapshot(0).encode());
    assert!(MvccKey::Metadata(vec![0xff]).encode() < MvccKey::Record(vec![], 0).encode());
}

#[test]
fn test_metadata_u64_codec() {
    let b = enc_u64(0x0102030405060708);
    assert_eq!(b, vec![1, 2, 3, 4, 5, 6, 7, 8]);
    assert_eq!(dec_u64(&b), Some(0x0102030405060708));
    assert_eq!(dec_u64(&[1, 2, 3]), None);
    assert_eq!(dec_u64(&[0; 9]), None);
}

#[test]
fn test_metadata_mode_codec() {
    for m in [Mode::ReadWrite, Mode::ReadOnly, Mode::Snapshot { version: 77 }] {
        let b = enc_mode(&m);
        assert_eq!(dec_mode(&b), Some(m));
    }
    assert_eq!(enc_mode(&Mode::ReadWrite), vec![0]);
    assert_eq!(enc_mode(&Mode::ReadOnly), vec![1]);
    assert_eq!(
        enc_mode(&Mode::Snapshot { version: 2 }),
        vec![2, 0, 0, 0, 0, 0, 0, 0, 2]
    );
    assert_eq!(dec_mode(&[3]), None);
    assert_eq!(dec_mode(&[]), None);
    assert_eq!(dec_mode(&[2, 1]), None);
}

#[test]
fn test_metadata_ids_codec() {
    let ids: Vec<u64> = vec![2, 3, 0x100];
    let b = enc_ids(&ids);
    assert_eq!(b.len(), 24);
    assert_eq!(dec_ids(&b), Some(ids));
    assert_eq!(dec_ids(&[]), Some(Vec::new()));
    assert_eq!(dec_ids(&[1, 2, 3]), None);
}
