//! Blocks: bounded chunks of key-sorted entries inside an SST. A block
//! encodes to bytes (length-framed keys and values), decodes strictly, and
//! offers an iterator with independent front and back cursors.

use vstd::prelude::*;
use vstd::slice::slice_to_vec;
use crate::bytes_order::{lex_lt, lex_le, bytes_lt, bytes_le, lemma_lex_trichotomy, lemma_lex_trans};
use crate::encoding::{
    be_bytes, be_val, pow256, push_be, take_be, lemma_be_bytes_len, lemma_be_bytes_val,
    lemma_be_val_bound, lemma_be_val_bytes,
};
use crate::error::Error;
use crate::kvstore::EntryForm;

verus! {

/// The byte size an entry occupies in a block: two length fields of two
/// bytes each, the key, and the value.
pub open spec fn entry_size(e: EntryForm) -> nat {
    4 + e.0.len() + e.1.len()
}

/// The encoded size of a sequence of entries.
pub open spec fn entries_size(es: Seq<EntryForm>) -> nat
    decreases es.len(),
{
    if es.len() == 0 {
        0
    } else {
        entry_size(es[0]) + entries_size(es.skip(1))
    }
}

/// Every key and value fits its two-byte length field.
pub open spec fn entries_fit(es: Seq<EntryForm>) -> bool {
    forall|i: int| 0 <= i < es.len()
        ==> (#[trigger] es[i]).0.len() <= 0xffff && es[i].1.len() <= 0xffff
}

/// The byte encoding of a sequence of entries.
pub open spec fn block_enc(es: Seq<EntryForm>) -> Seq<u8>
    decreases es.len(),
{
    if es.len() == 0 {
        Seq::empty()
    } else {
        be_bytes(es[0].0.len(), 2) + es[0].0 + be_bytes(es[0].1.len(), 2) + es[0].1
            + block_enc(es.skip(1))
    }
}

/// The strict decoding of a block: every field complete, nothing left over.
pub open spec fn block_dec(b: Seq<u8>) -> Option<Seq<EntryForm>>
    decreases b.len(),
{
    if b.len() == 0 {
        Some(Seq::empty())
    } else if b.len() < 2 {
        None
    } else {
        let klen = be_val(b.subrange(0, 2)) as int;
        if b.len() < 4 + klen {
            None
        } else {
            let key = b.subrange(2, 2 + klen);
            let vlen = be_val(b.subrange(2 + klen, 4 + klen)) as int;
            if b.len() < 4 + klen + vlen {
                None
            } else {
                let value = b.subrange(4 + klen, 4 + klen + vlen);
                match block_dec(b.skip(4 + klen + vlen)) {
                    Some(rest) => Some(seq![(key, value)] + rest),
                    None => None,
                }
            }
        }
    }
}

/// Appending an entry extends the encoding by that entry's bytes.
pub proof fn lemma_block_enc_push(es: Seq<EntryForm>, e: EntryForm)
    ensures
        block_enc(es.push(e)) == block_enc(es)
            + (be_bytes(e.0.len(), 2) + e.0 + be_bytes(e.1.len(), 2) + e.1),
        entries_size(es.push(e)) == entries_size(es) + entry_size(e),
    decreases es.len(),
{
    let unit = be_bytes(e.0.len(), 2) + e.0 + be_bytes(e.1.len(), 2) + e.1;
    if es.len() == 0 {
        assert(es.push(e)[0] == e);
        assert(es.push(e).skip(1) =~= Seq::<EntryForm>::empty());
        assert(block_enc(Seq::<EntryForm>::empty()) == Seq::<u8>::empty());
        assert(entries_size(Seq::<EntryForm>::empty()) == 0);
        assert(es =~= Seq::<EntryForm>::empty());
        assert(block_enc(es.push(e)) =~= block_enc(es) + unit);
    } else {
        assert(es.push(e)[0] == es[0]);
        assert(es.push(e).skip(1) =~= es.skip(1).push(e));
        lemma_block_enc_push(es.skip(1), e);
        assert(entries_size(es.push(e))
            == entry_size(es[0]) + entries_size(es.skip(1).push(e)));
        let head = be_bytes(es[0].0.len(), 2) + es[0].0 + be_bytes(es[0].1.len(), 2) + es[0].1;
        assert(block_enc(es.push(e)) =~= head + (block_enc(es.skip(1)) + unit));
        assert(block_enc(es) + unit =~= head + (block_enc(es.skip(1)) + unit));
    }
}

/// A block's bytes decode back to exactly the entries that were encoded.
#[verifier::rlimit(100)]
#[verifier::spinoff_prover]
pub proof fn lemma_block_round_trip(es: Seq<EntryForm>)
    requires
        entries_fit(es),
    ensures
        block_dec(block_enc(es)) == Some(es),
        block_enc(es).len() == entries_size(es),
    decreases es.len(),
{
    reveal_with_fuel(pow256, 3);
    if es.len() == 0 {
        assert(es =~= Seq::<EntryForm>::empty());
    } else {
        let e = es[0];
        let klen = e.0.len();
        let vlen = e.1.len();
        lemma_be_bytes_len(klen, 2);
        lemma_be_bytes_len(vlen, 2);
        lemma_be_bytes_val(klen, 2);
        lemma_be_bytes_val(vlen, 2);
        assert(forall|i: int| 0 <= i < es.skip(1).len()
            ==> #[trigger] es.skip(1)[i] == es[i + 1]);
        lemma_block_round_trip(es.skip(1));
        let b = block_enc(es);
        assert(b.len() == 4 + klen + vlen + block_enc(es.skip(1)).len());
        assert(b.subrange(0, 2) =~= be_bytes(klen, 2));
        assert(b.subrange(2, 2 + klen as int) =~= e.0);
        assert(b.subrange(2 + klen as int, 4 + klen as int) =~= be_bytes(vlen, 2));
        assert(b.subrange(4 + klen as int, 4 + (klen + vlen) as int) =~= e.1);
        assert(b.skip(4 + (klen + vlen) as int) =~= block_enc(es.skip(1)));
        assert(seq![(e.0, e.1)] + es.skip(1) =~= es);
    }
}

/// A block of entries, decoded into memory.
pub struct Block {
    entries: Vec<(Vec<u8>, Vec<u8>)>,
}

impl View for Block {
    type V = Seq<EntryForm>;

    closed spec fn view(&self) -> Seq<EntryForm> {
        self.entries@.map_values(|p: (Vec<u8>, Vec<u8>)| (p.0@, p.1@))
    }
}

impl Block {
    /// The number of entries.
    pub fn len(&self) -> (r: usize)
        ensures
            r == self@.len(),
    {
        self.entries.len()
    }

    /// The entry at `i`, copied out.
    pub fn entry_at(&self, i: usize) -> (r: (Vec<u8>, Vec<u8>))
        requires
            i < self@.len(),
        ensures
            (r.0@, r.1@) == self@[i as int],
    {
        (
            slice_to_vec(self.entries[i].0.as_slice()),
            slice_to_vec(self.entries[i].1.as_slice()),
        )
    }

    /// An owned copy of the block.
    pub fn duplicate(&self) -> (r: Block)
        ensures
            r@ == self@,
    {
        let mut entries: Vec<(Vec<u8>, Vec<u8>)> = Vec::new();
        let mut i: usize = 0;
        while i < self.entries.len()
            invariant
                i <= self.entries.len(),
                entries@.len() == i,
                forall|j: int| 0 <= j < i
                    ==> ((#[trigger] entries@[j]).0@, entries@[j].1@) == self@[j],
            decreases self.entries.len() - i,
        {
            entries.push((
                slice_to_vec(self.entries[i].0.as_slice()),
                slice_to_vec(self.entries[i].1.as_slice()),
            ));
            i = i + 1;
        }
        let r = Block { entries };
        proof {
            assert(r@ =~= self@);
        }
        r
    }

    /// Encodes the block.
    pub fn encode(&self) -> (r: Vec<u8>)
        requires
            entries_fit(self@),
        ensures
            r@ == block_enc(self@),
    {
        proof {
            reveal_with_fuel(pow256, 3);
        }
        let mut out: Vec<u8> = Vec::new();
        let mut i: usize = 0;
        proof {
            assert(self@.subrange(0, 0) =~= Seq::<EntryForm>::empty());
            assert(out@ =~= block_enc(self@.subrange(0, 0)));
        }
        while i < self.entries.len()
            invariant
                i <= self.entries.len(),
                self@.len() == self.entries.len(),
                entries_fit(self@),
                out@ == block_enc(self@.subrange(0, i as int)),
                pow256(2) == 0x10000,
            decreases self.entries.len() - i,
        {
            let key = &self.entries[i].0;
            let value = &self.entries[i].1;
            proof {
                assert(self@[i as int] == (key@, value@));
                assert(key@.len() <= 0xffff && value@.len() <= 0xffff);
            }
            push_be(&mut out, key.len() as u64, 2);
            let ghost mid1 = out@;
            let mut kc = slice_to_vec(key.as_slice());
            out.append(&mut kc);
            push_be(&mut out, value.len() as u64, 2);
            let mut vc = slice_to_vec(value.as_slice());
            out.append(&mut vc);
            proof {
                lemma_block_enc_push(self@.subrange(0, i as int), self@[i as int]);
                assert(self@.subrange(0, i + 1)
                    =~= self@.subrange(0, i as int).push(self@[i as int]));
                assert(out@ =~= block_enc(self@.subrange(0, i + 1)));
            }
            i = i + 1;
        }
        proof {
            assert(self@.subrange(0, self@.len() as int) =~= self@);
        }
        out
    }

    /// Decodes a block, strictly.
    pub fn decode(bytes: &[u8]) -> (r: Result<Block, Error>)
        ensures
            match r {
                Ok(blk) => block_dec(bytes@) == Some(blk@) && entries_fit(blk@),
                Err(e) => block_dec(bytes@) is None && e == Error::CorruptSstable,
            },
    {
        proof {
            reveal_with_fuel(pow256, 3);
        }
        let mut entries: Vec<(Vec<u8>, Vec<u8>)> = Vec::new();
        let mut i: usize = 0;
        proof {
            assert(bytes@.skip(0) =~= bytes@);
            if block_dec(bytes@) is Some {
                let whole = block_dec(bytes@).unwrap();
                assert(entries@.map_values(|p: (Vec<u8>, Vec<u8>)| (p.0@, p.1@)) + whole
                    =~= whole);
            }
        }
        loop
            invariant
                0 <= i <= bytes@.len(),
                entries_fit(entries@.map_values(|p: (Vec<u8>, Vec<u8>)| (p.0@, p.1@))),
                ({
                    let got = entries@.map_values(|p: (Vec<u8>, Vec<u8>)| (p.0@, p.1@));
                    match block_dec(bytes@.skip(i as int)) {
                        Some(rest) => block_dec(bytes@) == Some(got + rest),
                        None => block_dec(bytes@) is None,
                    }
                }),
                pow256(2) == 0x10000,
            decreases bytes@.len() - i,
        {
            let ghost got = entries@.map_values(|p: (Vec<u8>, Vec<u8>)| (p.0@, p.1@));
            let ghost s = bytes@.skip(i as int);
            if i == bytes.len() {
                proof {
                    assert(s.len() == 0);
                    assert(got + Seq::<EntryForm>::empty() =~= got);
                }
                let r = Block { entries };
                return Ok(r);
            }
            proof {
                assert(s.len() > 0);
            }
            let klen_pair = match take_be(bytes, i, 2) {
                Some(p) => p,
                None => {
                    proof {
                        assert(s.len() < 2);
                    }
                    return Err(Error::CorruptSstable);
                },
            };
            let klen = klen_pair.0 as usize;
            proof {
                assert(s.subrange(0, 2) =~= bytes@.subrange(i as int, i + 2));
                lemma_be_val_bound(s.subrange(0, 2));
            }
            if bytes.len() - (i + 2) < klen {
                proof {
                    assert(s.len() < 4 + klen);
                }
                return Err(Error::CorruptSstable);
            }
            let key = slice_to_vec(vstd::slice::slice_subrange(bytes, i + 2, i + 2 + klen));
            proof {
                assert(s.subrange(2, 2 + klen as int)
                    =~= bytes@.subrange(i + 2, i + 2 + klen as int));
            }
            let vlen_pair = match take_be(bytes, i + 2 + klen, 2) {
                Some(p) => p,
                None => {
                    proof {
                        assert(s.len() < 4 + klen);
                    }
                    return Err(Error::CorruptSstable);
                },
            };
            let vlen = vlen_pair.0 as usize;
            proof {
                assert(s.subrange(2 + klen as int, 4 + klen as int)
                    =~= bytes@.subrange(i + 2 + klen as int, i + 4 + klen as int));
                lemma_be_val_bound(s.subrange(2 + klen as int, 4 + klen as int));
            }
            if bytes.len() - (i + 4 + klen) < vlen {
                proof {
                    assert(s.len() < 4 + klen + vlen);
                }
                return Err(Error::CorruptSstable);
            }
            let value = slice_to_vec(
                vstd::slice::slice_subrange(bytes, i + 4 + klen, i + 4 + klen + vlen),
            );
            proof {
                assert(s.subrange(4 + klen as int, 4 + klen as int + vlen as int)
                    =~= bytes@.subrange(i + 4 + klen as int, i + 4 + klen as int + vlen as int));
                assert(s.skip(4 + klen as int + vlen as int)
                    =~= bytes@.skip(i + 4 + klen as int + vlen as int));
                if block_dec(bytes@.skip(i + 4 + klen as int + vlen as int)) is Some {
                    let rest = block_dec(bytes@.skip(i + 4 + klen as int + vlen as int)).unwrap();
                    assert(got.push((key@, value@)) + rest =~= got + (seq![(key@, value@)] + rest));
                }
                assert(got.push((key@, value@))
                    =~= entries@.push((key, value)).map_values(
                        |p: (Vec<u8>, Vec<u8>)| (p.0@, p.1@)));
            }
            entries.push((key, value));
            i = i + 4 + klen + vlen;
        }
    }
}

/// Builds one block: entries append until the target byte size is reached.
/// An empty builder absorbs any single entry.
pub struct BlockBuilder {
    entries: Vec<(Vec<u8>, Vec<u8>)>,
    size: usize,
    block_size: usize,
}

impl View for BlockBuilder {
    type V = Seq<EntryForm>;

    closed spec fn view(&self) -> Seq<EntryForm> {
        self.entries@.map_values(|p: (Vec<u8>, Vec<u8>)| (p.0@, p.1@))
    }
}

impl BlockBuilder {
    /// The builder's byte-size bookkeeping is exact.
    pub closed spec fn wf(&self) -> bool {
        &&& self.size == entries_size(self@)
        &&& entries_fit(self@)
    }

    /// The configured target size.
    pub closed spec fn spec_block_size(&self) -> nat {
        self.block_size as nat
    }

    /// An empty builder with the given target size.
    pub fn new(block_size: usize) -> (r: BlockBuilder)
        ensures
            r.wf(),
            r@ == Seq::<EntryForm>::empty(),
            r.spec_block_size() == block_size,
    {
        let r = BlockBuilder { entries: Vec::new(), size: 0, block_size };
        proof {
            assert(r@ =~= Seq::<EntryForm>::empty());
        }
        r
    }

    /// Tries to append an entry: refuses (`false`, unchanged) when the block
    /// is nonempty and the entry would push it past the target size.
    pub fn add(&mut self, key: &[u8], value: &[u8]) -> (r: bool)
        requires
            old(self).wf(),
            key@.len() <= 0xffff,
            value@.len() <= 0xffff,
            entries_size(old(self)@) + entry_size((key@, value@)) <= 0xffffffff,
        ensures
            final(self).wf(),
            final(self).spec_block_size() == old(self).spec_block_size(),
            r == !(old(self)@.len() > 0 && entries_size(old(self)@) + entry_size((key@, value@))
                > old(self).spec_block_size()),
            r ==> final(self)@ == old(self)@.push((key@, value@)),
            !r ==> final(self)@ == old(self)@,
    {
        let new_size = self.size + 4 + key.len() + value.len();
        if self.entries.len() > 0 && new_size > self.block_size {
            return false;
        }
        let ghost oldv = self@;
        self.entries.push((slice_to_vec(key), slice_to_vec(value)));
        self.size = new_size;
        proof {
            assert(self@ =~= oldv.push((key@, value@)));
            lemma_block_enc_push(oldv, (key@, value@));
        }
        true
    }

    /// The number of buffered entries.
    pub fn len(&self) -> (r: usize)
        ensures
            r == self@.len(),
    {
        self.entries.len()
    }

    /// The buffered byte size.
    pub fn size(&self) -> (r: usize)
        requires
            self.wf(),
        ensures
            r == entries_size(self@),
    {
        self.size
    }

    /// Finishes the block.
    pub fn build(self) -> (r: Block)
        ensures
            r@ == self@,
    {
        Block { entries: self.entries }
    }

    /// Finishes the block and leaves the builder empty for the next one.
    pub fn finish_and_reset(&mut self) -> (r: Block)
        requires
            old(self).wf(),
        ensures
            final(self).wf(),
            final(self)@ == Seq::<EntryForm>::empty(),
            final(self).spec_block_size() == old(self).spec_block_size(),
            r@ == old(self)@,
    {
        let mut entries: Vec<(Vec<u8>, Vec<u8>)> = Vec::new();
        core::mem::swap(&mut entries, &mut self.entries);
        self.size = 0;
        proof {
            assert(self@ =~= Seq::<EntryForm>::empty());
        }
        Block { entries }
    }
}

/// An iterator over one block with two independent cursors: `front_consumed`
/// entries are spent from the front, `back_consumed` from the back. The
/// iterator stays valid while an entry remains between them.
pub struct BlockIter {
    entries: Vec<(Vec<u8>, Vec<u8>)>,
    front_consumed: usize,
    back_consumed: usize,
}

impl View for BlockIter {
    type V = Seq<EntryForm>;

    closed spec fn view(&self) -> Seq<EntryForm> {
        self.entries@.map_values(|p: (Vec<u8>, Vec<u8>)| (p.0@, p.1@))
    }
}

impl BlockIter {
    /// Cursors stay within the block.
    pub closed spec fn wf(&self) -> bool {
        &&& self.front_consumed <= self@.len()
        &&& self.back_consumed <= self@.len()
    }

    /// How many entries the front cursor has passed.
    pub closed spec fn front_pos(&self) -> nat {
        self.front_consumed as nat
    }

    /// How many entries the back cursor has passed.
    pub closed spec fn back_pos(&self) -> nat {
        self.back_consumed as nat
    }

    /// A fresh iterator over the whole block.
    pub fn new(block: Block) -> (r: BlockIter)
        ensures
            r.wf(),
            r@ == block@,
            r.front_pos() == 0,
            r.back_pos() == 0,
    {
        let ghost bv = block@;
        let entries = block.entries;
        let r = BlockIter { entries, front_consumed: 0, back_consumed: 0 };
        proof {
            assert(r@ =~= bv);
        }
        r
    }

    /// Cursor counts stay within the block.
    pub proof fn lemma_cursor_bounds(&self)
        requires
            self.wf(),
        ensures
            self.front_pos() <= self@.len(),
            self.back_pos() <= self@.len(),
    {
    }

    /// The number of entries in the block being walked.
    pub fn len(&self) -> (r: usize)
        ensures
            r == self@.len(),
    {
        self.entries.len()
    }

    /// How many entries the front cursor has passed.
    pub fn front_count(&self) -> (r: usize)
        ensures
            r == self.front_pos(),
    {
        self.front_consumed
    }

    /// How many entries the back cursor has passed.
    pub fn back_count(&self) -> (r: usize)
        ensures
            r == self.back_pos(),
    {
        self.back_consumed
    }

    /// True while an unconsumed entry remains between the cursors.
    pub fn is_valid(&self) -> (r: bool)
        requires
            self.wf(),
        ensures
            r == (self.front_pos() + self.back_pos() < self@.len()),
    {
        self.front_consumed < self.entries.len()
            && self.back_consumed < self.entries.len() - self.front_consumed
    }

    /// Yields the next entry from the front, or nothing past the bound.
    pub fn next(&mut self) -> (r: Option<(Vec<u8>, Vec<u8>)>)
        requires
            old(self).wf(),
        ensures
            final(self).wf(),
            final(self)@ == old(self)@,
            final(self).back_pos() == old(self).back_pos(),
            if old(self).front_pos() + old(self).back_pos() < old(self)@.len() {
                &&& final(self).front_pos() == old(self).front_pos() + 1
                &&& r matches Some(e) && (e.0@, e.1@) == old(self)@[
                    old(self).front_pos() as int]
            } else {
                r is None && final(self).front_pos() == old(self).front_pos()
            },
    {
        if self.front_consumed < self.entries.len()
            && self.back_consumed < self.entries.len() - self.front_consumed {
            let i = self.front_consumed;
            let e = (
                slice_to_vec(self.entries[i].0.as_slice()),
                slice_to_vec(self.entries[i].1.as_slice()),
            );
            self.front_consumed = self.front_consumed + 1;
            Some(e)
        } else {
            None
        }
    }

    /// Yields the next entry from the back, or nothing past the bound.
    pub fn next_back(&mut self) -> (r: Option<(Vec<u8>, Vec<u8>)>)
        requires
            old(self).wf(),
        ensures
            final(self).wf(),
            final(self)@ == old(self)@,
            final(self).front_pos() == old(self).front_pos(),
            if old(self).front_pos() + old(self).back_pos() < old(self)@.len() {
                &&& final(self).back_pos() == old(self).back_pos() + 1
                &&& r matches Some(e) && (e.0@, e.1@) == old(self)@[
                    old(self)@.len() - 1 - old(self).back_pos()]
            } else {
                r is None && final(self).back_pos() == old(self).back_pos()
            },
    {
        if self.front_consumed < self.entries.len()
            && self.back_consumed < self.entries.len() - self.front_consumed {
            let i = self.entries.len() - 1 - self.back_consumed;
            let e = (
                slice_to_vec(self.entries[i].0.as_slice()),
                slice_to_vec(self.entries[i].1.as_slice()),
            );
            self.back_consumed = self.back_consumed + 1;
            Some(e)
        } else {
            None
        }
    }

    /// The entry the front cursor last returned, if any.
    pub fn front_entry(&self) -> (r: Option<(Vec<u8>, Vec<u8>)>)
        requires
            self.wf(),
        ensures
            match r {
                Some(e) => self.front_pos() > 0 && (e.0@, e.1@) == self@[
                    self.front_pos() - 1],
                None => self.front_pos() == 0,
            },
    {
        if self.front_consumed == 0 {
            None
        } else {
            let i = self.front_consumed - 1;
            Some((
                slice_to_vec(self.entries[i].0.as_slice()),
                slice_to_vec(self.entries[i].1.as_slice()),
            ))
        }
    }

    /// The entry the back cursor last returned, if any.
    pub fn back_entry(&self) -> (r: Option<(Vec<u8>, Vec<u8>)>)
        requires
            self.wf(),
        ensures
            match r {
                Some(e) => self.back_pos() > 0 && (e.0@, e.1@) == self@[
                    self@.len() - self.back_pos()],
                None => self.back_pos() == 0,
            },
    {
        if self.back_consumed == 0 {
            None
        } else {
            let i = self.entries.len() - self.back_consumed;
            Some((
                slice_to_vec(self.entries[i].0.as_slice()),
                slice_to_vec(self.entries[i].1.as_slice()),
            ))
        }
    }

    /// A fresh iterator whose front cursor is placed so that the next entry
    /// from the front is the first one at or past `key` (inclusive), or
    /// strictly past it (exclusive).
    pub fn create_and_seek_to_key(block: Block, key: &[u8], included: bool) -> (r: BlockIter)
        requires
            crate::kvstore::sorted_strict(block@),
        ensures
            r.wf(),
            r@ == block@,
            r.back_pos() == 0,
            r.front_pos() <= r@.len(),
            included ==> forall|j: int| 0 <= j < r.front_pos()
                ==> lex_lt((#[trigger] r@[j]).0, key@),
            included ==> forall|j: int| r.front_pos() <= j < r@.len()
                ==> !lex_lt((#[trigger] r@[j]).0, key@),
            !included ==> forall|j: int| 0 <= j < r.front_pos()
                ==> lex_le((#[trigger] r@[j]).0, key@),
            !included ==> forall|j: int| r.front_pos() <= j < r@.len()
                ==> lex_lt(key@, (#[trigger] r@[j]).0),
    {
        let mut it = Self::new(block);
        let n = it.entries.len();
        let mut i: usize = 0;
        while i < n
            invariant
                i <= n,
                n == it@.len(),
                it.wf(),
                it@ == block@,
                it.front_consumed == 0,
                it.back_consumed == 0,
                crate::kvstore::sorted_strict(it@),
                included ==> forall|j: int| 0 <= j < i ==> lex_lt((#[trigger] it@[j]).0, key@),
                !included ==> forall|j: int| 0 <= j < i ==> lex_le((#[trigger] it@[j]).0, key@),
            decreases n - i,
        {
            let passes = if included {
                bytes_lt(it.entries[i].0.as_slice(), key)
            } else {
                bytes_le(it.entries[i].0.as_slice(), key)
            };
            if !passes {
                proof {
                    assert forall|j: int| i <= j < it@.len()
                        implies (if included {
                            !lex_lt((#[trigger] it@[j]).0, key@)
                        } else {
                            lex_lt(key@, (#[trigger] it@[j]).0)
                        }) by {
                        lemma_lex_trichotomy(it@[i as int].0, key@);
                        lemma_lex_trichotomy(it@[j].0, key@);
                        if j > i {
                            assert(lex_lt(it@[i as int].0, it@[j].0));
                            if included {
                                if lex_lt(it@[j].0, key@) {
                                    lemma_lex_trans(it@[i as int].0, it@[j].0, key@);
                                }
                            } else {
                                if lex_lt(it@[j].0, key@) {
                                    lemma_lex_trans(it@[i as int].0, it@[j].0, key@);
                                }
                            }
                        }
                    }
                }
                it.front_consumed = i;
                return it;
            }
            i = i + 1;
        }
        it.front_consumed = n;
        it
    }

    /// A fresh iterator whose back cursor is placed so that the next entry
    /// from the back is the last one at or before `key` (inclusive), or
    /// strictly before it (exclusive).
    pub fn create_and_back_seek_to_key(block: Block, key: &[u8], included: bool) -> (r: BlockIter)
        requires
            crate::kvstore::sorted_strict(block@),
        ensures
            r.wf(),
            r@ == block@,
            r.front_pos() == 0,
            r.back_pos() <= r@.len(),
            included ==> forall|j: int| r@.len() - r.back_pos() <= j < r@.len()
                ==> lex_lt(key@, (#[trigger] r@[j]).0),
            included ==> forall|j: int| 0 <= j < r@.len() - r.back_pos()
                ==> !lex_lt(key@, (#[trigger] r@[j]).0),
            !included ==> forall|j: int| r@.len() - r.back_pos() <= j < r@.len()
                ==> !lex_lt((#[trigger] r@[j]).0, key@),
            !included ==> forall|j: int| 0 <= j < r@.len() - r.back_pos()
                ==> lex_lt((#[trigger] r@[j]).0, key@),
    {
        let mut it = Self::new(block);
        let n = it.entries.len();
        let mut b: usize = 0;
        while b < n
            invariant
                b <= n,
                n == it@.len(),
                it.wf(),
                it@ == block@,
                it.front_consumed == 0,
                it.back_consumed == 0,
                crate::kvstore::sorted_strict(it@),
                included ==> forall|j: int| n - b <= j < n
                    ==> lex_lt(key@, (#[trigger] it@[j]).0),
                !included ==> forall|j: int| n - b <= j < n
                    ==> !lex_lt((#[trigger] it@[j]).0, key@),
            decreases n - b,
        {
            let i = n - 1 - b;
            let stays = if included {
                bytes_lt(key, it.entries[i].0.as_slice())
            } else {
                !bytes_lt(it.entries[i].0.as_slice(), key)
            };
            if !stays {
                proof {
                    assert forall|j: int| 0 <= j < n - b
                        implies (if included {
                            !lex_lt(key@, (#[trigger] it@[j]).0)
                        } else {
                            lex_lt((#[trigger] it@[j]).0, key@)
                        }) by {
                        lemma_lex_trichotomy(key@, it@[i as int].0);
                        lemma_lex_trichotomy(key@, it@[j].0);
                        if j < i {
                            assert(lex_lt(it@[j].0, it@[i as int].0));
                            if included {
                                if lex_lt(key@, it@[j].0) {
                                    lemma_lex_trans(key@, it@[j].0, it@[i as int].0);
                                }
                            } else {
                                lemma_lex_trichotomy(it@[i as int].0, key@);
                                if !lex_lt(it@[j].0, key@) {
                                    lemma_lex_trichotomy(it@[j].0, key@);
                                    if lex_lt(key@, it@[j].0) {
                                        lemma_lex_trans(key@, it@[j].0, it@[i as int].0);
                                    }
                                }
                            }
                        }
                    }
                }
                it.back_consumed = b;
                return it;
            }
            b = b + 1;
        }
        it.back_consumed = n;
        it
    }
}


/// A byte string that decodes is exactly the encoding of what it decodes to.
#[verifier::rlimit(100)]
#[verifier::spinoff_prover]
pub proof fn lemma_block_dec_strict(b: Seq<u8>)
    requires
        block_dec(b) is Some,
    ensures
        entries_fit(block_dec(b).unwrap()),
        block_enc(block_dec(b).unwrap()) == b,
    decreases b.len(),
{
    reveal_with_fuel(pow256, 3);
    if b.len() == 0 {
        assert(block_enc(Seq::<EntryForm>::empty()) =~= b);
    } else {
        let es = block_dec(b).unwrap();
        let klen = be_val(b.subrange(0, 2)) as int;
        let key = b.subrange(2, 2 + klen);
        let vlen = be_val(b.subrange(2 + klen, 4 + klen)) as int;
        let value = b.subrange(4 + klen, 4 + klen + vlen);
        let rest = block_dec(b.skip(4 + klen + vlen)).unwrap();
        lemma_be_val_bound(b.subrange(0, 2));
        lemma_be_val_bound(b.subrange(2 + klen, 4 + klen));
        lemma_be_val_bytes(b.subrange(0, 2));
        lemma_be_val_bytes(b.subrange(2 + klen, 4 + klen));
        lemma_block_dec_strict(b.skip(4 + klen + vlen));
        assert(es == seq![(key, value)] + rest);
        assert(es[0] == (key, value));
        assert(es.skip(1) =~= rest);
        assert forall|i: int| 0 <= i < es.len()
            implies (#[trigger] es[i]).0.len() <= 0xffff && es[i].1.len() <= 0xffff by {
            if i > 0 {
                assert(es[i] == rest[i - 1]);
            }
        }
        assert(be_bytes(key.len(), 2) =~= b.subrange(0, 2));
        assert(be_bytes(value.len(), 2) =~= b.subrange(2 + klen, 4 + klen));
        assert(block_enc(es)
            =~= b.subrange(0, 2) + key + b.subrange(2 + klen, 4 + klen) + value
                + b.skip(4 + klen + vlen));
        assert(block_enc(es) =~= b);
    }
}

} // verus!
