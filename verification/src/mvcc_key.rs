//! The MVCC key codec: a bijective, order-preserving encoding of typed keys
//! into byte strings. A leading tag byte groups each kind of key
//! contiguously; integer fields are big-endian 64-bit; byte-string fields use
//! the escaped, terminated encoding of [`crate::encoding`]. Decoding is
//! strict: unknown tags, truncated fields and trailing bytes are errors.

use vstd::prelude::*;
use crate::bytes_order::{lex_lt, lemma_lex_append};
use crate::encoding::{
    be_bytes, be_val, esc, esc_body, esc_dec, pow256, push_be, take_be, push_escaped,
    take_escaped, lemma_be_bytes_len, lemma_be_bytes_val, lemma_be_val_bytes,
    lemma_be_val_bound, lemma_be_bytes_order, lemma_esc_dec_of_esc, lemma_esc_order,
};
use crate::error::Error;

verus! {

/// A typed MVCC key.
pub enum MvccKey {
    /// Singleton: the next transaction id to allocate.
    TxnNext,
    /// Present while the transaction with this id is active.
    TxnActive(u64),
    /// The persisted snapshot of the transaction with this version.
    TxnSnapshot(u64),
    /// Rollback marker: the transaction wrote to this key.
    TxnUpdate(u64, Vec<u8>),
    /// Arbitrary unversioned metadata.
    Metadata(Vec<u8>),
    /// A versioned user record.
    Record(Vec<u8>, u64),
}

/// The mathematical form of an MVCC key.
pub enum KeyForm {
    TxnNext,
    TxnActive { id: nat },
    TxnSnapshot { version: nat },
    TxnUpdate { id: nat, key: Seq<u8> },
    Metadata { key: Seq<u8> },
    Record { key: Seq<u8>, version: nat },
}

impl View for MvccKey {
    type V = KeyForm;

    open spec fn view(&self) -> KeyForm {
        match self {
            MvccKey::TxnNext => KeyForm::TxnNext,
            MvccKey::TxnActive(id) => KeyForm::TxnActive { id: *id as nat },
            MvccKey::TxnSnapshot(v) => KeyForm::TxnSnapshot { version: *v as nat },
            MvccKey::TxnUpdate(id, key) => KeyForm::TxnUpdate { id: *id as nat, key: key@ },
            MvccKey::Metadata(key) => KeyForm::Metadata { key: key@ },
            MvccKey::Record(key, v) => KeyForm::Record { key: key@, version: *v as nat },
        }
    }
}

/// Every integer field fits in 64 bits. Keys built from `MvccKey` values
/// satisfy this by construction.
pub open spec fn key_wf(k: KeyForm) -> bool {
    match k {
        KeyForm::TxnNext => true,
        KeyForm::TxnActive { id } => id < pow256(8),
        KeyForm::TxnSnapshot { version } => version < pow256(8),
        KeyForm::TxnUpdate { id, key } => id < pow256(8),
        KeyForm::Metadata { key } => true,
        KeyForm::Record { key, version } => version < pow256(8),
    }
}

/// The leading tag byte of each key kind.
pub open spec fn key_tag(k: KeyForm) -> u8 {
    match k {
        KeyForm::TxnNext => 0x01,
        KeyForm::TxnActive { .. } => 0x02,
        KeyForm::TxnSnapshot { .. } => 0x03,
        KeyForm::TxnUpdate { .. } => 0x04,
        KeyForm::Metadata { .. } => 0x05,
        KeyForm::Record { .. } => 0xff,
    }
}

/// The byte encoding of a key.
pub open spec fn spec_encode(k: KeyForm) -> Seq<u8> {
    match k {
        KeyForm::TxnNext => seq![0x01u8],
        KeyForm::TxnActive { id } => seq![0x02u8] + be_bytes(id, 8),
        KeyForm::TxnSnapshot { version } => seq![0x03u8] + be_bytes(version, 8),
        KeyForm::TxnUpdate { id, key } => seq![0x04u8] + be_bytes(id, 8) + esc(key),
        KeyForm::Metadata { key } => seq![0x05u8] + esc(key),
        KeyForm::Record { key, version } => seq![0xffu8] + esc(key) + be_bytes(version, 8),
    }
}

/// The strict decoding of a byte string, if it is a valid encoding.
pub open spec fn spec_decode(b: Seq<u8>) -> Option<KeyForm> {
    if b.len() == 0 {
        None
    } else if b[0] == 0x01 {
        if b.len() == 1 {
            Some(KeyForm::TxnNext)
        } else {
            None
        }
    } else if b[0] == 0x02 {
        if b.len() == 9 {
            Some(KeyForm::TxnActive { id: be_val(b.subrange(1, 9)) })
        } else {
            None
        }
    } else if b[0] == 0x03 {
        if b.len() == 9 {
            Some(KeyForm::TxnSnapshot { version: be_val(b.subrange(1, 9)) })
        } else {
            None
        }
    } else if b[0] == 0x04 {
        if b.len() < 9 {
            None
        } else {
            match esc_dec(b.skip(9)) {
                Some(dc) => if b.len() == 9 + dc.1 {
                    Some(KeyForm::TxnUpdate { id: be_val(b.subrange(1, 9)), key: dc.0 })
                } else {
                    None
                },
                None => None,
            }
        }
    } else if b[0] == 0x05 {
        match esc_dec(b.skip(1)) {
            Some(dc) => if b.len() == 1 + dc.1 {
                Some(KeyForm::Metadata { key: dc.0 })
            } else {
                None
            },
            None => None,
        }
    } else if b[0] == 0xff {
        match esc_dec(b.skip(1)) {
            Some(dc) => if b.len() == 1 + dc.1 + 8 {
                Some(KeyForm::Record {
                    key: dc.0,
                    version: be_val(b.subrange(1 + dc.1, 1 + dc.1 + 8)),
                })
            } else {
                None
            },
            None => None,
        }
    } else {
        None
    }
}

/// The error a strict decoder reports for an invalid byte string.
pub open spec fn spec_decode_err(b: Seq<u8>) -> Error {
    if b.len() == 0 {
        Error::MalformedKey
    } else if b[0] == 0x01 {
        Error::TrailingKeyBytes
    } else if b[0] == 0x02 || b[0] == 0x03 {
        if b.len() < 9 {
            Error::MalformedKey
        } else {
            Error::TrailingKeyBytes
        }
    } else if b[0] == 0x04 {
        if b.len() < 9 {
            Error::MalformedKey
        } else {
            match esc_dec(b.skip(9)) {
                Some(dc) => Error::TrailingKeyBytes,
                None => Error::MalformedKey,
            }
        }
    } else if b[0] == 0x05 {
        match esc_dec(b.skip(1)) {
            Some(dc) => Error::TrailingKeyBytes,
            None => Error::MalformedKey,
        }
    } else if b[0] == 0xff {
        match esc_dec(b.skip(1)) {
            Some(dc) => if b.len() < 1 + dc.1 + 8 {
                Error::MalformedKey
            } else {
                Error::TrailingKeyBytes
            },
            None => Error::MalformedKey,
        }
    } else {
        Error::UnknownKeyPrefix(b[0])
    }
}

impl MvccKey {
    /// Encodes the key into its byte form.
    pub fn encode(&self) -> (r: Vec<u8>)
        ensures
            r@ == spec_encode(self@),
    {
        proof {
            reveal_with_fuel(pow256, 9);
        }
        match self {
            MvccKey::TxnNext => {
                let out: Vec<u8> = vec![0x01u8];
                proof {
                    assert(out@ =~= spec_encode(self@));
                }
                out
            },
            MvccKey::TxnActive(id) => {
                let mut out: Vec<u8> = vec![0x02u8];
                push_be(&mut out, *id, 8);
                proof {
                    assert(out@ =~= spec_encode(self@));
                }
                out
            },
            MvccKey::TxnSnapshot(v) => {
                let mut out: Vec<u8> = vec![0x03u8];
                push_be(&mut out, *v, 8);
                proof {
                    assert(out@ =~= spec_encode(self@));
                }
                out
            },
            MvccKey::TxnUpdate(id, key) => {
                let mut out: Vec<u8> = vec![0x04u8];
                push_be(&mut out, *id, 8);
                push_escaped(&mut out, key.as_slice());
                proof {
                    assert(out@ =~= spec_encode(self@));
                }
                out
            },
            MvccKey::Metadata(key) => {
                let mut out: Vec<u8> = vec![0x05u8];
                push_escaped(&mut out, key.as_slice());
                proof {
                    assert(out@ =~= spec_encode(self@));
                }
                out
            },
            MvccKey::Record(key, v) => {
                let mut out: Vec<u8> = vec![0xffu8];
                push_escaped(&mut out, key.as_slice());
                push_be(&mut out, *v, 8);
                proof {
                    assert(out@ =~= spec_encode(self@));
                }
                out
            },
        }
    }

    /// Decodes a byte string, strictly: succeeds exactly on valid encodings,
    /// and otherwise reports how the bytes are invalid.
    pub fn decode(bytes: &[u8]) -> (r: Result<MvccKey, Error>)
        ensures
            match r {
                Ok(k) => spec_decode(bytes@) == Some(k@),
                Err(e) => spec_decode(bytes@) is None && e == spec_decode_err(bytes@),
            },
    {
        if bytes.len() == 0 {
            return Err(Error::MalformedKey);
        }
        let tag = bytes[0];
        if tag == 0x01 {
            if bytes.len() == 1 {
                Ok(MvccKey::TxnNext)
            } else {
                Err(Error::TrailingKeyBytes)
            }
        } else if tag == 0x02 {
            match take_be(bytes, 1, 8) {
                None => Err(Error::MalformedKey),
                Some((v, p)) => {
                    if p == bytes.len() {
                        Ok(MvccKey::TxnActive(v))
                    } else {
                        Err(Error::TrailingKeyBytes)
                    }
                },
            }
        } else if tag == 0x03 {
            match take_be(bytes, 1, 8) {
                None => Err(Error::MalformedKey),
                Some((v, p)) => {
                    if p == bytes.len() {
                        Ok(MvccKey::TxnSnapshot(v))
                    } else {
                        Err(Error::TrailingKeyBytes)
                    }
                },
            }
        } else if tag == 0x04 {
            match take_be(bytes, 1, 8) {
                None => Err(Error::MalformedKey),
                Some((id, p)) => {
                    match take_escaped(bytes, p) {
                        None => Err(Error::MalformedKey),
                        Some((key, p2)) => {
                            if p2 == bytes.len() {
                                Ok(MvccKey::TxnUpdate(id, key))
                            } else {
                                Err(Error::TrailingKeyBytes)
                            }
                        },
                    }
                },
            }
        } else if tag == 0x05 {
            match take_escaped(bytes, 1) {
                None => Err(Error::MalformedKey),
                Some((key, p)) => {
                    if p == bytes.len() {
                        Ok(MvccKey::Metadata(key))
                    } else {
                        Err(Error::TrailingKeyBytes)
                    }
                },
            }
        } else if tag == 0xff {
            match take_escaped(bytes, 1) {
                None => Err(Error::MalformedKey),
                Some((key, p)) => {
                    match take_be(bytes, p, 8) {
                        None => Err(Error::MalformedKey),
                        Some((v, p2)) => {
                            if p2 == bytes.len() {
                                Ok(MvccKey::Record(key, v))
                            } else {
                                Err(Error::TrailingKeyBytes)
                            }
                        },
                    }
                },
            }
        } else {
            Err(Error::UnknownKeyPrefix(tag))
        }
    }
}

/// Decoding inverts encoding: every well-formed key round-trips.
pub proof fn lemma_key_round_trip(k: KeyForm)
    requires
        key_wf(k),
    ensures
        spec_decode(spec_encode(k)) == Some(k),
{
    let b = spec_encode(k);
    match k {
        KeyForm::TxnNext => {
            assert(b =~= seq![0x01u8]);
        },
        KeyForm::TxnActive { id } => {
            lemma_be_bytes_len(id, 8);
            lemma_be_bytes_val(id, 8);
            assert(b.subrange(1, 9) =~= be_bytes(id, 8));
        },
        KeyForm::TxnSnapshot { version } => {
            lemma_be_bytes_len(version, 8);
            lemma_be_bytes_val(version, 8);
            assert(b.subrange(1, 9) =~= be_bytes(version, 8));
        },
        KeyForm::TxnUpdate { id, key } => {
            lemma_be_bytes_len(id, 8);
            lemma_be_bytes_val(id, 8);
            assert(b.subrange(1, 9) =~= be_bytes(id, 8));
            assert(b.skip(9) =~= esc(key));
            lemma_esc_dec_of_esc(key, Seq::empty());
            assert(esc(key) + Seq::<u8>::empty() =~= esc(key));
            assert(b.len() == 9 + esc(key).len());
        },
        KeyForm::Metadata { key } => {
            assert(b.skip(1) =~= esc(key));
            lemma_esc_dec_of_esc(key, Seq::empty());
            assert(esc(key) + Seq::<u8>::empty() =~= esc(key));
            assert(b.len() == 1 + esc(key).len());
        },
        KeyForm::Record { key, version } => {
            lemma_be_bytes_len(version, 8);
            lemma_be_bytes_val(version, 8);
            assert(b.skip(1) =~= esc(key) + be_bytes(version, 8));
            lemma_esc_dec_of_esc(key, be_bytes(version, 8));
            let c = esc(key).len() as int;
            assert(b.len() == 1 + c + 8);
            assert(b.subrange(1 + c, 1 + c + 8) =~= be_bytes(version, 8));
        },
    }
}

/// Encoding inverts decoding: a byte string that decodes is exactly the
/// encoding of what it decodes to. With the round-trip above, decoding fails
/// exactly on the byte strings that are not encodings.
pub proof fn lemma_key_decode_strict(b: Seq<u8>)
    requires
        spec_decode(b) is Some,
    ensures
        key_wf(spec_decode(b).unwrap()),
        spec_encode(spec_decode(b).unwrap()) == b,
{
    let k = spec_decode(b).unwrap();
    match k {
        KeyForm::TxnNext => {
            assert(spec_encode(k) =~= b);
        },
        KeyForm::TxnActive { id } => {
            lemma_be_val_bound(b.subrange(1, 9));
            lemma_be_val_bytes(b.subrange(1, 9));
            assert(spec_encode(k) =~= b);
        },
        KeyForm::TxnSnapshot { version } => {
            lemma_be_val_bound(b.subrange(1, 9));
            lemma_be_val_bytes(b.subrange(1, 9));
            assert(spec_encode(k) =~= b);
        },
        KeyForm::TxnUpdate { id, key } => {
            lemma_be_val_bound(b.subrange(1, 9));
            lemma_be_val_bytes(b.subrange(1, 9));
            let dc = esc_dec(b.skip(9)).unwrap();
            lemma_esc_dec_exact(b.skip(9));
            assert(b.skip(9) =~= esc(key));
            assert(spec_encode(k) =~= b);
        },
        KeyForm::Metadata { key } => {
            let dc = esc_dec(b.skip(1)).unwrap();
            lemma_esc_dec_exact(b.skip(1));
            assert(b.skip(1) =~= esc(key));
            assert(spec_encode(k) =~= b);
        },
        KeyForm::Record { key, version } => {
            let dc = esc_dec(b.skip(1)).unwrap();
            let c = dc.1;
            lemma_esc_dec_prefix(b.skip(1));
            assert(b.skip(1).subrange(0, c) =~= esc(key));
            lemma_be_val_bound(b.subrange(1 + c, 1 + c + 8));
            lemma_be_val_bytes(b.subrange(1 + c, 1 + c + 8));
            assert(spec_encode(k) =~= b);
        },
    }
}

/// A successful strict decode consumed the whole buffer as one escaped
/// string: the buffer is the encoding of the decoded bytes.
proof fn lemma_esc_dec_exact(s: Seq<u8>)
    requires
        esc_dec(s) is Some,
        esc_dec(s).unwrap().1 == s.len(),
    ensures
        s == esc(esc_dec(s).unwrap().0),
{
    lemma_esc_dec_prefix(s);
    let dc = esc_dec(s).unwrap();
    assert(s.subrange(0, dc.1) =~= s);
}

/// A successful decode from the head of a buffer identifies the encoding of
/// the decoded bytes as the consumed prefix.
proof fn lemma_esc_dec_prefix(s: Seq<u8>)
    requires
        esc_dec(s) is Some,
    ensures
        0 <= esc_dec(s).unwrap().1 <= s.len(),
        s.subrange(0, esc_dec(s).unwrap().1) == esc(esc_dec(s).unwrap().0),
    decreases s.len(),
{
    let dc = esc_dec(s).unwrap();
    if s[0] != 0 {
        lemma_esc_dec_prefix(s.skip(1));
        let inner = esc_dec(s.skip(1)).unwrap();
        assert(s.subrange(0, dc.1) =~= seq![s[0]] + s.skip(1).subrange(0, inner.1));
        assert(esc(seq![s[0]] + inner.0) =~= seq![s[0]] + esc(inner.0)) by {
            assert(esc_body(seq![s[0]] + inner.0) =~= seq![s[0]] + esc_body(inner.0)) by {
                assert((seq![s[0]] + inner.0)[0] == s[0]);
                assert((seq![s[0]] + inner.0).skip(1) =~= inner.0);
            }
        }
        assert(s.subrange(0, dc.1) =~= esc(dc.0));
    } else if s[1] == 0 {
        assert(s.subrange(0, 2) =~= seq![0u8, 0u8]);
        assert(esc(Seq::<u8>::empty()) =~= seq![0u8, 0u8]);
    } else {
        // s[1] == 0xff
        lemma_esc_dec_prefix(s.skip(2));
        let inner = esc_dec(s.skip(2)).unwrap();
        assert(s.subrange(0, dc.1) =~= seq![0u8, 0xffu8] + s.skip(2).subrange(0, inner.1));
        assert(esc(seq![0u8] + inner.0) =~= seq![0u8, 0xffu8] + esc(inner.0)) by {
            assert(esc_body(seq![0u8] + inner.0) =~= seq![0u8, 0xffu8] + esc_body(inner.0)) by {
                assert((seq![0u8] + inner.0)[0] == 0u8);
                assert((seq![0u8] + inner.0).skip(1) =~= inner.0);
            }
        }
        assert(s.subrange(0, dc.1) =~= esc(dc.0));
    }
}

/// The logical order on two keys of the same tag: integer fields and
/// byte-string fields compare in the order the encoding lays them out.
pub open spec fn key_lt(a: KeyForm, b: KeyForm) -> bool {
    match (a, b) {
        (KeyForm::TxnNext, KeyForm::TxnNext) => false,
        (KeyForm::TxnActive { id: x }, KeyForm::TxnActive { id: y }) => x < y,
        (KeyForm::TxnSnapshot { version: x }, KeyForm::TxnSnapshot { version: y }) => x < y,
        (
            KeyForm::TxnUpdate { id: x, key: j },
            KeyForm::TxnUpdate { id: y, key: l },
        ) => x < y || (x == y && lex_lt(j, l)),
        (KeyForm::Metadata { key: j }, KeyForm::Metadata { key: l }) => lex_lt(j, l),
        (
            KeyForm::Record { key: j, version: x },
            KeyForm::Record { key: l, version: y },
        ) => lex_lt(j, l) || (j == l && x < y),
        _ => false,
    }
}

/// Within one tag the encoding preserves the logical order exactly.
pub proof fn lemma_key_order(a: KeyForm, b: KeyForm)
    requires
        key_wf(a),
        key_wf(b),
        key_tag(a) == key_tag(b),
    ensures
        lex_lt(spec_encode(a), spec_encode(b)) == key_lt(a, b),
{
    let ea = spec_encode(a);
    let eb = spec_encode(b);
    match (a, b) {
        (KeyForm::TxnNext, KeyForm::TxnNext) => {
            crate::bytes_order::lemma_lex_irrefl(ea);
        },
        (KeyForm::TxnActive { id: x }, KeyForm::TxnActive { id: y }) => {
            lemma_u64_field_order(0x02u8, x, y, Seq::empty(), Seq::empty());
            assert(ea =~= seq![0x02u8] + (be_bytes(x, 8) + Seq::<u8>::empty()));
            assert(eb =~= seq![0x02u8] + (be_bytes(y, 8) + Seq::<u8>::empty()));
        },
        (KeyForm::TxnSnapshot { version: x }, KeyForm::TxnSnapshot { version: y }) => {
            lemma_u64_field_order(0x03u8, x, y, Seq::empty(), Seq::empty());
            assert(ea =~= seq![0x03u8] + (be_bytes(x, 8) + Seq::<u8>::empty()));
            assert(eb =~= seq![0x03u8] + (be_bytes(y, 8) + Seq::<u8>::empty()));
        },
        (KeyForm::TxnUpdate { id: x, key: j }, KeyForm::TxnUpdate { id: y, key: l }) => {
            lemma_u64_field_order(0x04u8, x, y, esc(j), esc(l));
            assert(ea =~= seq![0x04u8] + (be_bytes(x, 8) + esc(j)));
            assert(eb =~= seq![0x04u8] + (be_bytes(y, 8) + esc(l)));
            lemma_esc_order(j, l, Seq::empty(), Seq::empty());
            assert(esc(j) + Seq::<u8>::empty() =~= esc(j));
            assert(esc(l) + Seq::<u8>::empty() =~= esc(l));
            crate::bytes_order::lemma_lex_irrefl(Seq::<u8>::empty());
            lemma_esc_injective(j, l);
        },
        (KeyForm::Metadata { key: j }, KeyForm::Metadata { key: l }) => {
            crate::bytes_order::lemma_lex_common_prefix(seq![0x05u8], esc(j), esc(l));
            assert(ea =~= seq![0x05u8] + esc(j));
            assert(eb =~= seq![0x05u8] + esc(l));
            lemma_esc_order(j, l, Seq::empty(), Seq::empty());
            assert(esc(j) + Seq::<u8>::empty() =~= esc(j));
            assert(esc(l) + Seq::<u8>::empty() =~= esc(l));
            crate::bytes_order::lemma_lex_irrefl(Seq::<u8>::empty());
        },
        (KeyForm::Record { key: j, version: x }, KeyForm::Record { key: l, version: y }) => {
            crate::bytes_order::lemma_lex_common_prefix(
                seq![0xffu8], esc(j) + be_bytes(x, 8), esc(l) + be_bytes(y, 8));
            assert(ea =~= seq![0xffu8] + (esc(j) + be_bytes(x, 8)));
            assert(eb =~= seq![0xffu8] + (esc(l) + be_bytes(y, 8)));
            lemma_esc_order(j, l, be_bytes(x, 8), be_bytes(y, 8));
            lemma_be_bytes_order(x, y, 8);
        },
        _ => {},
    }
}

/// Helper for keys whose first field is a 64-bit integer: the tag byte is
/// shared, the integer field decides, and on a tie the rest decides.
proof fn lemma_u64_field_order(tag: u8, x: nat, y: nat, s: Seq<u8>, t: Seq<u8>)
    requires
        x < pow256(8),
        y < pow256(8),
    ensures
        lex_lt(seq![tag] + (be_bytes(x, 8) + s), seq![tag] + (be_bytes(y, 8) + t))
            == (x < y || (x == y && lex_lt(s, t))),
{
    crate::bytes_order::lemma_lex_common_prefix(
        seq![tag], be_bytes(x, 8) + s, be_bytes(y, 8) + t);
    lemma_be_bytes_len(x, 8);
    lemma_be_bytes_len(y, 8);
    lemma_lex_append(be_bytes(x, 8), be_bytes(y, 8), s, t);
    lemma_be_bytes_order(x, y, 8);
    if x == y {
        assert(be_bytes(x, 8) == be_bytes(y, 8));
    }
    if be_bytes(x, 8) == be_bytes(y, 8) && x != y {
        lemma_be_bytes_val(x, 8);
        lemma_be_bytes_val(y, 8);
    }
}

/// The escape encoding is injective.
proof fn lemma_esc_injective(a: Seq<u8>, b: Seq<u8>)
    ensures
        (esc(a) == esc(b)) == (a == b),
{
    if esc(a) == esc(b) {
        lemma_esc_dec_of_esc(a, Seq::empty());
        lemma_esc_dec_of_esc(b, Seq::empty());
        assert(esc(a) + Seq::<u8>::empty() =~= esc(a));
        assert(esc(b) + Seq::<u8>::empty() =~= esc(b));
    }
}

/// Keys of different tags never interleave: their encodings compare as the
/// tag bytes do, so each tag's keys group contiguously.
pub proof fn lemma_key_tag_grouping(a: KeyForm, b: KeyForm)
    requires
        key_tag(a) != key_tag(b),
    ensures
        lex_lt(spec_encode(a), spec_encode(b)) == (key_tag(a) < key_tag(b)),
{
    let ea = spec_encode(a);
    let eb = spec_encode(b);
    assert(ea[0] == key_tag(a) && ea.len() > 0) by {
        lemma_encode_head(a);
    }
    assert(eb[0] == key_tag(b) && eb.len() > 0) by {
        lemma_encode_head(b);
    }
}

proof fn lemma_encode_head(a: KeyForm)
    ensures
        spec_encode(a).len() > 0,
        spec_encode(a)[0] == key_tag(a),
{
    match a {
        KeyForm::TxnNext => {
            assert(spec_encode(a)[0] == 0x01u8);
        },
        KeyForm::TxnActive { id } => {
            assert((seq![0x02u8] + be_bytes(id, 8))[0] == 0x02u8);
        },
        KeyForm::TxnSnapshot { version } => {
            assert((seq![0x03u8] + be_bytes(version, 8))[0] == 0x03u8);
        },
        KeyForm::TxnUpdate { id, key } => {
            assert((seq![0x04u8] + be_bytes(id, 8) + esc(key))[0] == 0x04u8);
        },
        KeyForm::Metadata { key } => {
            assert((seq![0x05u8] + esc(key))[0] == 0x05u8);
        },
        KeyForm::Record { key, version } => {
            assert((seq![0xffu8] + esc(key) + be_bytes(version, 8))[0] == 0xffu8);
        },
    }
}

} // verus!
