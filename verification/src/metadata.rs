//! The stable binary encoding of MVCC metadata values: the transaction-id
//! counter, a transaction's mode, and a snapshot's set of invisible ids.
//! Each encoding is length-framed and round-trips exactly; decoding is
//! strict.

use vstd::prelude::*;
use crate::encoding::{
    be_bytes, be_val, pow256, push_be, take_be, lemma_be_bytes_len, lemma_be_bytes_val,
    lemma_be_val_bound,
};

verus! {

/// A stored 64-bit counter: exactly eight big-endian bytes.
pub open spec fn spec_dec_u64(b: Seq<u8>) -> Option<nat> {
    if b.len() == 8 {
        Some(be_val(b))
    } else {
        None
    }
}

/// Encodes a counter value.
pub fn enc_u64(x: u64) -> (r: Vec<u8>)
    ensures
        r@ == be_bytes(x as nat, 8),
        spec_dec_u64(r@) == Some(x as nat),
{
    proof {
        reveal_with_fuel(pow256, 9);
    }
    let mut out: Vec<u8> = Vec::new();
    push_be(&mut out, x, 8);
    proof {
        assert(out@ =~= be_bytes(x as nat, 8));
        lemma_be_bytes_len(x as nat, 8);
        lemma_be_bytes_val(x as nat, 8);
    }
    out
}

/// Decodes a counter value, strictly.
pub fn dec_u64(b: &[u8]) -> (r: Option<u64>)
    ensures
        match r {
            Some(x) => spec_dec_u64(b@) == Some(x as nat),
            None => spec_dec_u64(b@) is None,
        },
{
    if b.len() != 8 {
        return None;
    }
    match take_be(b, 0, 8) {
        Some((v, _)) => {
            proof {
                assert(b@.subrange(0, 8) =~= b@);
            }
            Some(v)
        },
        None => None,
    }
}

/// A transaction mode, as the MVCC layer stores and restores it.
#[derive(Clone, Copy, Debug, PartialEq, Eq, Structural)]
pub enum Mode {
    /// May read and write.
    ReadWrite,
    /// May only read, at its own fresh snapshot.
    ReadOnly,
    /// May only read, in the snapshot of the given earlier version.
    Snapshot { version: u64 },
}

impl Mode {
    /// Only a read-write transaction may mutate data.
    pub fn allows_write(&self) -> (r: bool)
        ensures
            r == (*self is ReadWrite),
    {
        match self {
            Mode::ReadWrite => true,
            _ => false,
        }
    }
}

/// The byte encoding of a mode: a discriminant byte, and for snapshot modes
/// the version.
pub open spec fn spec_enc_mode(m: Mode) -> Seq<u8> {
    match m {
        Mode::ReadWrite => seq![0u8],
        Mode::ReadOnly => seq![1u8],
        Mode::Snapshot { version } => seq![2u8] + be_bytes(version as nat, 8),
    }
}

/// The strict decoding of a stored mode.
pub open spec fn spec_dec_mode(b: Seq<u8>) -> Option<Mode> {
    if b.len() == 1 && b[0] == 0 {
        Some(Mode::ReadWrite)
    } else if b.len() == 1 && b[0] == 1 {
        Some(Mode::ReadOnly)
    } else if b.len() == 9 && b[0] == 2 {
        Some(Mode::Snapshot { version: be_val(b.subrange(1, 9)) as u64 })
    } else {
        None
    }
}

/// Encodes a mode.
pub fn enc_mode(m: &Mode) -> (r: Vec<u8>)
    ensures
        r@ == spec_enc_mode(*m),
        spec_dec_mode(r@) == Some(*m),
{
    proof {
        reveal_with_fuel(pow256, 9);
    }
    match m {
        Mode::ReadWrite => {
            let out: Vec<u8> = vec![0u8];
            proof {
                assert(out@ =~= spec_enc_mode(*m));
            }
            out
        },
        Mode::ReadOnly => {
            let out: Vec<u8> = vec![1u8];
            proof {
                assert(out@ =~= spec_enc_mode(*m));
            }
            out
        },
        Mode::Snapshot { version } => {
            let mut out: Vec<u8> = vec![2u8];
            push_be(&mut out, *version, 8);
            proof {
                assert(out@ =~= spec_enc_mode(*m));
                lemma_be_bytes_len(*version as nat, 8);
                assert(out@.subrange(1, 9) =~= be_bytes(*version as nat, 8));
                lemma_be_bytes_val(*version as nat, 8);
            }
            out
        },
    }
}

/// Decodes a mode, strictly.
pub fn dec_mode(b: &[u8]) -> (r: Option<Mode>)
    ensures
        r == spec_dec_mode(b@),
{
    if b.len() == 1 {
        if b[0] == 0 {
            Some(Mode::ReadWrite)
        } else if b[0] == 1 {
            Some(Mode::ReadOnly)
        } else {
            None
        }
    } else if b.len() == 9 {
        if b[0] != 2 {
            return None;
        }
        match take_be(b, 1, 8) {
            Some((v, _)) => {
                proof {
                    lemma_be_val_bound(b@.subrange(1, 9));
                    reveal_with_fuel(pow256, 9);
                }
                Some(Mode::Snapshot { version: v })
            },
            None => None,
        }
    } else {
        None
    }
}

/// A mode decodes back to exactly the mode that was encoded.
pub proof fn lemma_mode_round_trip(m: Mode)
    ensures
        spec_dec_mode(spec_enc_mode(m)) == Some(m),
{
    match m {
        Mode::ReadWrite => {
            assert(spec_enc_mode(m) =~= seq![0u8]);
        },
        Mode::ReadOnly => {
            assert(spec_enc_mode(m) =~= seq![1u8]);
        },
        Mode::Snapshot { version } => {
            proof_pow256_u64_facts();
            let b = spec_enc_mode(m);
            lemma_be_bytes_len(version as nat, 8);
            assert(b.len() == 9 && b[0] == 2);
            assert(b.subrange(1, 9) =~= be_bytes(version as nat, 8));
            lemma_be_bytes_val(version as nat, 8);
        },
    }
}

/// The byte encoding of a stored id list: the ids, each as eight big-endian
/// bytes, in sequence.
pub open spec fn spec_enc_ids(s: Seq<u64>) -> Seq<u8>
    decreases s.len(),
{
    if s.len() == 0 {
        Seq::empty()
    } else {
        be_bytes(s[0] as nat, 8) + spec_enc_ids(s.skip(1))
    }
}

/// The strict decoding of a stored id list.
pub open spec fn spec_dec_ids(b: Seq<u8>) -> Option<Seq<u64>>
    decreases b.len(),
{
    if b.len() == 0 {
        Some(Seq::empty())
    } else if b.len() < 8 {
        None
    } else {
        match spec_dec_ids(b.skip(8)) {
            Some(rest) => Some(seq![be_val(b.subrange(0, 8)) as u64] + rest),
            None => None,
        }
    }
}

/// Appending an id extends the encoding by its eight bytes.
pub proof fn lemma_enc_ids_push(s: Seq<u64>, x: u64)
    ensures
        spec_enc_ids(s.push(x)) == spec_enc_ids(s) + be_bytes(x as nat, 8),
    decreases s.len(),
{
    if s.len() == 0 {
        assert(s.push(x)[0] == x);
        assert(s.push(x).skip(1) =~= Seq::<u64>::empty());
        assert(spec_enc_ids(Seq::<u64>::empty()) == Seq::<u8>::empty());
        assert(spec_enc_ids(s.push(x)) =~= spec_enc_ids(s) + be_bytes(x as nat, 8));
    } else {
        assert(s.push(x)[0] == s[0]);
        assert(s.push(x).skip(1) =~= s.skip(1).push(x));
        lemma_enc_ids_push(s.skip(1), x);
        assert(spec_enc_ids(s.push(x))
            =~= be_bytes(s[0] as nat, 8) + (spec_enc_ids(s.skip(1)) + be_bytes(x as nat, 8)));
        assert(spec_enc_ids(s) + be_bytes(x as nat, 8)
            =~= be_bytes(s[0] as nat, 8) + (spec_enc_ids(s.skip(1)) + be_bytes(x as nat, 8)));
    }
}

/// A stored id list decodes back to exactly the ids that were encoded.
pub proof fn lemma_ids_round_trip(s: Seq<u64>)
    ensures
        spec_dec_ids(spec_enc_ids(s)) == Some(s),
    decreases s.len(),
{
    proof_pow256_u64_facts();
    if s.len() == 0 {
        assert(spec_enc_ids(s).len() == 0);
        assert(s =~= Seq::<u64>::empty());
    } else {
        let head = be_bytes(s[0] as nat, 8);
        lemma_be_bytes_len(s[0] as nat, 8);
        lemma_be_bytes_val(s[0] as nat, 8);
        lemma_ids_round_trip(s.skip(1));
        let b = spec_enc_ids(s);
        assert(b == head + spec_enc_ids(s.skip(1)));
        assert(b.len() >= 8);
        assert(b.skip(8) =~= spec_enc_ids(s.skip(1)));
        assert(b.subrange(0, 8) =~= head);
        assert(seq![s[0]] + s.skip(1) =~= s);
    }
}

/// Establishes that a `u64` is below the eighth power of 256.
pub proof fn proof_pow256_u64_facts()
    ensures
        pow256(8) == 0x10000000000000000,
{
    reveal_with_fuel(pow256, 9);
}

/// Encodes an id list.
pub fn enc_ids(v: &Vec<u64>) -> (r: Vec<u8>)
    ensures
        r@ == spec_enc_ids(v@),
{
    proof {
        proof_pow256_u64_facts();
    }
    let mut out: Vec<u8> = Vec::new();
    let mut i: usize = 0;
    proof {
        assert(v@.subrange(0, 0) =~= Seq::<u64>::empty());
        assert(out@ =~= spec_enc_ids(v@.subrange(0, 0)));
    }
    while i < v.len()
        invariant
            i <= v.len(),
            out@ == spec_enc_ids(v@.subrange(0, i as int)),
            pow256(8) == 0x10000000000000000,
        decreases v.len() - i,
    {
        push_be(&mut out, v[i], 8);
        proof {
            lemma_enc_ids_push(v@.subrange(0, i as int), v@[i as int]);
            assert(v@.subrange(0, i + 1) =~= v@.subrange(0, i as int).push(v@[i as int]));
        }
        i = i + 1;
    }
    proof {
        assert(v@.subrange(0, v@.len() as int) =~= v@);
    }
    out
}

/// Decodes an id list, strictly.
pub fn dec_ids(b: &[u8]) -> (r: Option<Vec<u64>>)
    ensures
        match r {
            Some(v) => spec_dec_ids(b@) == Some(v@),
            None => spec_dec_ids(b@) is None,
        },
{
    let mut out: Vec<u64> = Vec::new();
    let mut i: usize = 0;
    proof {
        assert(b@.skip(0) =~= b@);
        if spec_dec_ids(b@) is Some {
            assert(out@ + spec_dec_ids(b@).unwrap() =~= spec_dec_ids(b@).unwrap());
        }
    }
    loop
        invariant
            0 <= i <= b@.len(),
            ({
                let whole = spec_dec_ids(b@);
                match spec_dec_ids(b@.skip(i as int)) {
                    Some(rest) => whole == Some(out@ + rest),
                    None => whole is None,
                }
            }),
        decreases b@.len() - i,
    {
        if i == b.len() {
            proof {
                assert(b@.skip(i as int).len() == 0);
                assert(out@ + Seq::<u64>::empty() =~= out@);
            }
            return Some(out);
        }
        match take_be(b, i, 8) {
            None => {
                proof {
                    assert(b@.skip(i as int).len() < 8);
                    assert(b@.skip(i as int).len() > 0);
                }
                return None;
            },
            Some((v, next)) => {
                proof {
                    let s = b@.skip(i as int);
                    assert(s.len() >= 8);
                    assert(s.subrange(0, 8) =~= b@.subrange(i as int, i + 8));
                    assert(s.skip(8) =~= b@.skip(i + 8));
                    if spec_dec_ids(b@.skip(i + 8)) is Some {
                        let rest = spec_dec_ids(b@.skip(i + 8)).unwrap();
                        assert(out@.push(v) + rest =~= out@ + (seq![v] + rest));
                    }
                }
                out.push(v);
                i = next;
            },
        }
    }
}

} // verus!
