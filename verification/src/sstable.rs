//! The SST format: data blocks in key order, a block-meta index, and a
//! four-byte trailer giving the index's offset. A builder partitions added
//! entries into blocks of a target byte size; a reader parses the index and
//! serves blocks, optionally through a cache.

use vstd::prelude::*;
use vstd::slice::{slice_to_vec, slice_subrange};
use crate::bytes_order::{lex_lt, lex_le};
use crate::block::{
    Block, BlockBuilder, block_enc, block_dec, entries_fit, entries_size, entry_size,
    lemma_block_round_trip, lemma_block_enc_push,
};
use crate::encoding::{
    be_bytes, be_val, pow256, push_be, take_be, lemma_be_bytes_len, lemma_be_bytes_val,
    lemma_be_val_bound, lemma_be_val_bytes,
};
use crate::error::Error;
use crate::kvstore::{EntryForm, sorted_strict};

verus! {

/// The mathematical form of one block-meta entry: block offset and first key.
pub type MetaForm = (nat, Seq<u8>);

/// The views of a list of metas.
pub open spec fn metas_vm(s: Seq<BlockMeta>) -> Seq<MetaForm> {
    s.map_values(|m: BlockMeta| (m.offset as nat, m.first_key@))
}

/// The concatenation of the blocks' entries, in order.
pub open spec fn flat(bs: Seq<Seq<EntryForm>>) -> Seq<EntryForm>
    decreases bs.len(),
{
    if bs.len() == 0 {
        Seq::empty()
    } else {
        bs[0] + flat(bs.skip(1))
    }
}

/// The number of entries in the first `i` blocks.
pub open spec fn count_upto(bs: Seq<Seq<EntryForm>>, i: int) -> nat
    decreases i,
{
    if i <= 0 || bs.len() == 0 {
        0
    } else if i > bs.len() {
        count_upto(bs, bs.len() as int)
    } else {
        count_upto(bs, i - 1) + bs[i - 1].len()
    }
}

pub proof fn lemma_count_upto_skip(bs: Seq<Seq<EntryForm>>, i: int)
    requires
        bs.len() > 0,
        1 <= i <= bs.len(),
    ensures
        count_upto(bs, i) == bs[0].len() + count_upto(bs.skip(1), i - 1),
    decreases i,
{
    if i == 1 {
        assert(count_upto(bs, 0) == 0);
        assert(count_upto(bs.skip(1), 0) == 0);
    } else {
        lemma_count_upto_skip(bs, i - 1);
        assert(bs.skip(1)[i - 2] == bs[i - 1]);
    }
}

/// Flat length is the count over all blocks.
pub proof fn lemma_flat_len(bs: Seq<Seq<EntryForm>>)
    ensures
        flat(bs).len() == count_upto(bs, bs.len() as int),
    decreases bs.len(),
{
    if bs.len() > 0 {
        lemma_flat_len(bs.skip(1));
        lemma_count_upto_skip(bs, bs.len() as int);
    }
}

/// Block-local coordinates map into the flat sequence.
pub proof fn lemma_flat_index(bs: Seq<Seq<EntryForm>>, i: int, j: int)
    requires
        0 <= i < bs.len(),
        0 <= j < bs[i].len(),
    ensures
        count_upto(bs, i) + j < flat(bs).len(),
        flat(bs)[count_upto(bs, i) + j] == bs[i][j],
    decreases i,
{
    lemma_flat_len(bs);
    lemma_count_upto_mono(bs, i + 1, bs.len() as int);
    assert(count_upto(bs, i + 1) == count_upto(bs, i) + bs[i].len());
    if i == 0 {
        assert(flat(bs)[j] == bs[0][j]);
    } else {
        lemma_count_upto_skip(bs, i);
        lemma_flat_index(bs.skip(1), i - 1, j);
        assert(bs.skip(1)[i - 1] == bs[i]);
        assert(flat(bs)[bs[0].len() + (count_upto(bs.skip(1), i - 1) + j)]
            == flat(bs.skip(1))[count_upto(bs.skip(1), i - 1) + j]);
    }
}

/// Counts grow with the index.
pub proof fn lemma_count_upto_mono(bs: Seq<Seq<EntryForm>>, i: int, j: int)
    requires
        i <= j,
    ensures
        count_upto(bs, i) <= count_upto(bs, j),
    decreases j - i,
{
    if i < j {
        lemma_count_upto_mono(bs, i, j - 1);
        if 1 <= j <= bs.len() {
        }
    }
}

/// Every flat position falls in exactly one block.
pub proof fn lemma_flat_coords(bs: Seq<Seq<EntryForm>>, g: int)
    requires
        0 <= g < flat(bs).len(),
    ensures
        exists|i: int|
            0 <= i < bs.len() && #[trigger] count_upto(bs, i) <= g
                && g < count_upto(bs, i) + bs[i].len(),
    decreases bs.len(),
{
    lemma_flat_len(bs);
    if g < bs[0].len() {
        assert(count_upto(bs, 0) <= g < count_upto(bs, 0) + bs[0].len());
    } else {
        lemma_flat_coords(bs.skip(1), g - bs[0].len());
        let i = choose|i: int| 0 <= i < bs.skip(1).len()
            && #[trigger] count_upto(bs.skip(1), i) <= g - bs[0].len()
                && g - bs[0].len() < count_upto(bs.skip(1), i) + bs.skip(1)[i].len();
        lemma_count_upto_skip(bs, i + 1);
        assert(bs.skip(1)[i] == bs[i + 1]);
        assert(count_upto(bs, i + 1) <= g < count_upto(bs, i + 1) + bs[i + 1].len());
    }
}

/// One block-meta entry: where the block's bytes begin, and its first key.
#[derive(Clone, Debug, PartialEq, Eq)]
pub struct BlockMeta {
    /// Byte offset of the block in the file.
    pub offset: usize,
    /// The first key stored in the block.
    pub first_key: Vec<u8>,
}

/// Every meta fits its fixed-width fields.
pub open spec fn metas_fit(ms: Seq<MetaForm>) -> bool {
    forall|i: int| 0 <= i < ms.len()
        ==> (#[trigger] ms[i]).0 < 0x100000000 && ms[i].1.len() <= 0xffff
}

/// The byte encoding of the meta index: per entry, a four-byte offset, a
/// two-byte key length, and the key.
pub open spec fn meta_enc(ms: Seq<MetaForm>) -> Seq<u8>
    decreases ms.len(),
{
    if ms.len() == 0 {
        Seq::empty()
    } else {
        be_bytes(ms[0].0, 4) + be_bytes(ms[0].1.len(), 2) + ms[0].1 + meta_enc(ms.skip(1))
    }
}

/// The strict decoding of a meta index.
pub open spec fn meta_dec(b: Seq<u8>) -> Option<Seq<MetaForm>>
    decreases b.len(),
{
    if b.len() == 0 {
        Some(Seq::empty())
    } else if b.len() < 6 {
        None
    } else {
        let offset = be_val(b.subrange(0, 4));
        let klen = be_val(b.subrange(4, 6)) as int;
        if b.len() < 6 + klen {
            None
        } else {
            let key = b.subrange(6, 6 + klen);
            match meta_dec(b.skip(6 + klen)) {
                Some(rest) => Some(seq![(offset, key)] + rest),
                None => None,
            }
        }
    }
}

pub proof fn lemma_meta_enc_push(ms: Seq<MetaForm>, m: MetaForm)
    ensures
        meta_enc(ms.push(m)) == meta_enc(ms) + (be_bytes(m.0, 4) + be_bytes(m.1.len(), 2) + m.1),
    decreases ms.len(),
{
    let unit = be_bytes(m.0, 4) + be_bytes(m.1.len(), 2) + m.1;
    if ms.len() == 0 {
        assert(ms.push(m)[0] == m);
        assert(ms.push(m).skip(1) =~= Seq::<MetaForm>::empty());
        assert(meta_enc(Seq::<MetaForm>::empty()) == Seq::<u8>::empty());
        assert(ms =~= Seq::<MetaForm>::empty());
        assert(meta_enc(ms.push(m)) =~= meta_enc(ms) + unit);
    } else {
        assert(ms.push(m)[0] == ms[0]);
        assert(ms.push(m).skip(1) =~= ms.skip(1).push(m));
        lemma_meta_enc_push(ms.skip(1), m);
        let head = be_bytes(ms[0].0, 4) + be_bytes(ms[0].1.len(), 2) + ms[0].1;
        assert(meta_enc(ms.push(m)) =~= head + (meta_enc(ms.skip(1)) + unit));
        assert(meta_enc(ms) + unit =~= head + (meta_enc(ms.skip(1)) + unit));
    }
}

/// The meta index round-trips: parsing the encoded index yields the metas
/// the builder held. This is the build/parse fidelity of the SST trailer.
#[verifier::rlimit(100)]
#[verifier::spinoff_prover]
pub proof fn lemma_meta_round_trip(ms: Seq<MetaForm>)
    requires
        metas_fit(ms),
    ensures
        meta_dec(meta_enc(ms)) == Some(ms),
    decreases ms.len(),
{
    reveal_with_fuel(pow256, 5);
    if ms.len() == 0 {
        assert(ms =~= Seq::<MetaForm>::empty());
    } else {
        let m = ms[0];
        let klen = m.1.len();
        lemma_be_bytes_len(m.0, 4);
        lemma_be_bytes_len(klen, 2);
        lemma_be_bytes_val(m.0, 4);
        lemma_be_bytes_val(klen, 2);
        assert(forall|i: int| 0 <= i < ms.skip(1).len()
            ==> #[trigger] ms.skip(1)[i] == ms[i + 1]);
        lemma_meta_round_trip(ms.skip(1));
        let b = meta_enc(ms);
        assert(b.len() == 6 + klen + meta_enc(ms.skip(1)).len());
        assert(b.subrange(0, 4) =~= be_bytes(m.0, 4));
        assert(b.subrange(4, 6) =~= be_bytes(klen, 2));
        assert(b.subrange(6, 6 + klen as int) =~= m.1);
        assert(b.skip(6 + klen as int) =~= meta_enc(ms.skip(1)));
        assert(seq![(m.0, m.1)] + ms.skip(1) =~= ms);
    }
}

impl BlockMeta {
    /// Appends the encoded meta index to `buffer`.
    pub fn encode_block_meta(block_meta: &Vec<BlockMeta>, buffer: &mut Vec<u8>)
        requires
            metas_fit(metas_vm(block_meta@)),
        ensures
            final(buffer)@ == old(buffer)@ + meta_enc(metas_vm(block_meta@)),
    {
        proof {
            reveal_with_fuel(pow256, 5);
        }
        let ghost ms = metas_vm(block_meta@);
        let mut i: usize = 0;
        proof {
            assert(metas_vm(block_meta@.subrange(0, 0)) =~= Seq::<MetaForm>::empty());
            assert(meta_enc(Seq::<MetaForm>::empty()) == Seq::<u8>::empty());
            assert(buffer@ =~= old(buffer)@ + meta_enc(metas_vm(block_meta@.subrange(0, 0))));
        }
        while i < block_meta.len()
            invariant
                i <= block_meta@.len(),
                metas_fit(metas_vm(block_meta@)),
                buffer@ == old(buffer)@ + meta_enc(metas_vm(block_meta@.subrange(0, i as int))),
                pow256(4) == 0x100000000,
                pow256(2) == 0x10000,
            decreases block_meta@.len() - i,
        {
            let m = &block_meta[i];
            proof {
                assert(metas_vm(block_meta@)[i as int] == (m.offset as nat, m.first_key@));
            }
            push_be(buffer, m.offset as u64, 4);
            push_be(buffer, m.first_key.len() as u64, 2);
            let mut kc = slice_to_vec(m.first_key.as_slice());
            buffer.append(&mut kc);
            proof {
                lemma_meta_enc_push(
                    metas_vm(block_meta@.subrange(0, i as int)),
                    (m.offset as nat, m.first_key@),
                );
                assert(metas_vm(block_meta@.subrange(0, i + 1))
                    =~= metas_vm(block_meta@.subrange(0, i as int)).push(
                        (m.offset as nat, m.first_key@)));
                assert(buffer@ =~= old(buffer)@
                    + meta_enc(metas_vm(block_meta@.subrange(0, i + 1))));
            }
            i = i + 1;
        }
        proof {
            assert(block_meta@.subrange(0, block_meta@.len() as int) =~= block_meta@);
        }
    }

    /// Parses a meta index, strictly.
    pub fn decode_block_meta(buffer: &[u8]) -> (r: Result<Vec<BlockMeta>, Error>)
        ensures
            match r {
                Ok(ms) => meta_dec(buffer@) == Some(metas_vm(ms@))
                    && metas_fit(metas_vm(ms@)),
                Err(e) => meta_dec(buffer@) is None && e == Error::CorruptSstable,
            },
    {
        proof {
            reveal_with_fuel(pow256, 5);
        }
        let mut out: Vec<BlockMeta> = Vec::new();
        let mut i: usize = 0;
        proof {
            assert(buffer@.skip(0) =~= buffer@);
            if meta_dec(buffer@) is Some {
                let whole = meta_dec(buffer@).unwrap();
                assert(metas_vm(out@) + whole =~= whole);
            }
        }
        loop
            invariant
                0 <= i <= buffer@.len(),
                metas_fit(metas_vm(out@)),
                ({
                    let got = metas_vm(out@);
                    match meta_dec(buffer@.skip(i as int)) {
                        Some(rest) => meta_dec(buffer@) == Some(got + rest),
                        None => meta_dec(buffer@) is None,
                    }
                }),
                pow256(4) == 0x100000000,
                pow256(2) == 0x10000,
            decreases buffer@.len() - i,
        {
            let ghost got = metas_vm(out@);
            let ghost s = buffer@.skip(i as int);
            if i == buffer.len() {
                proof {
                    assert(s.len() == 0);
                    assert(got + Seq::<MetaForm>::empty() =~= got);
                }
                return Ok(out);
            }
            let offset_pair = match take_be(buffer, i, 4) {
                Some(p) => p,
                None => {
                    proof {
                        assert(s.len() < 6 && s.len() > 0);
                    }
                    return Err(Error::CorruptSstable);
                },
            };
            let klen_pair = match take_be(buffer, i + 4, 2) {
                Some(p) => p,
                None => {
                    proof {
                        assert(s.len() < 6 && s.len() > 0);
                    }
                    return Err(Error::CorruptSstable);
                },
            };
            let klen = klen_pair.0 as usize;
            proof {
                assert(s.subrange(0, 4) =~= buffer@.subrange(i as int, i + 4));
                assert(s.subrange(4, 6) =~= buffer@.subrange(i + 4, i + 6));
                lemma_be_val_bound(s.subrange(0, 4));
                lemma_be_val_bound(s.subrange(4, 6));
            }
            if buffer.len() - (i + 6) < klen {
                proof {
                    assert(s.len() < 6 + klen);
                }
                return Err(Error::CorruptSstable);
            }
            let key = slice_to_vec(slice_subrange(buffer, i + 6, i + 6 + klen));
            let offset = offset_pair.0 as usize;
            proof {
                assert(s.subrange(6, 6 + klen as int)
                    =~= buffer@.subrange(i + 6, i + 6 + klen as int));
                assert(s.skip(6 + klen as int) =~= buffer@.skip(i + 6 + klen as int));
                if meta_dec(buffer@.skip(i + 6 + klen as int)) is Some {
                    let rest = meta_dec(buffer@.skip(i + 6 + klen as int)).unwrap();
                    assert(got.push((offset as nat, key@)) + rest
                        =~= got + (seq![(offset as nat, key@)] + rest));
                }
                assert(metas_vm(out@.push(BlockMeta { offset, first_key: key }))
                    =~= got.push((offset as nat, key@)));
            }
            out.push(BlockMeta { offset, first_key: key });
            i = i + 6 + klen;
        }
    }
}

/// A file: an immutable byte string with positional reads. The core holds the
/// bytes in memory; writing them to and reading them from disk sits outside.
pub struct FileObject {
    data: Vec<u8>,
}

impl View for FileObject {
    type V = Seq<u8>;

    closed spec fn view(&self) -> Seq<u8> {
        self.data@
    }
}

impl FileObject {
    /// A file holding exactly `data`.
    pub fn create(data: Vec<u8>) -> (r: FileObject)
        ensures
            r@ == data@,
    {
        FileObject { data }
    }

    /// Reads exactly `len` bytes at `offset`, or fails past the end.
    pub fn read(&self, offset: usize, len: usize) -> (r: Result<Vec<u8>, Error>)
        ensures
            match r {
                Ok(v) => offset + len <= self@.len()
                    && v@ == self@.subrange(offset as int, offset + len),
                Err(e) => offset + len > self@.len() && e == Error::CorruptSstable,
            },
    {
        if len > self.data.len() || offset > self.data.len() - len {
            return Err(Error::CorruptSstable);
        }
        Ok(slice_to_vec(slice_subrange(self.data.as_slice(), offset, offset + len)))
    }

    /// The file's length.
    pub fn size(&self) -> (r: usize)
        ensures
            r == self@.len(),
    {
        self.data.len()
    }

    /// The raw bytes, for persistence outside the core.
    pub fn bytes(&self) -> (r: &[u8])
        ensures
            r@ == self@,
    {
        self.data.as_slice()
    }
}

/// A block cache shared by table readers, keyed by table id and block index.
/// Deduplicating loads is its only job; lookups must return what was stored.
pub struct BlockCache {
    items: Vec<(usize, usize, Block)>,
}

/// The first cached block under this key, by view.
pub open spec fn cache_find(s: Seq<(usize, usize, Block)>, id: usize, idx: usize)
    -> Option<Seq<EntryForm>>
    decreases s.len(),
{
    if s.len() == 0 {
        None
    } else if s[0].0 == id && s[0].1 == idx {
        Some(s[0].2@)
    } else {
        cache_find(s.skip(1), id, idx)
    }
}

impl View for BlockCache {
    type V = Seq<(usize, usize, Block)>;

    closed spec fn view(&self) -> Seq<(usize, usize, Block)> {
        self.items@
    }
}

impl BlockCache {
    /// An empty cache.
    pub fn new() -> (r: BlockCache)
        ensures
            r@ == Seq::<(usize, usize, Block)>::empty(),
    {
        let r = BlockCache { items: Vec::new() };
        proof {
            assert(r@ =~= Seq::<(usize, usize, Block)>::empty());
        }
        r
    }

    /// Looks a block up, returning a copy.
    pub fn get(&self, id: usize, idx: usize) -> (r: Option<Block>)
        ensures
            match r {
                Some(b) => cache_find(self@, id, idx) == Some(b@),
                None => cache_find(self@, id, idx) is None,
            },
    {
        let mut i: usize = 0;
        proof {
            assert(self@.skip(0) =~= self@);
        }
        while i < self.items.len()
            invariant
                i <= self.items.len(),
                cache_find(self@, id, idx) == cache_find(self@.skip(i as int), id, idx),
            decreases self.items.len() - i,
        {
            proof {
                assert(self@.skip(i as int)[0] == self@[i as int]);
                assert(self@.skip(i as int).skip(1) =~= self@.skip(i + 1));
            }
            if self.items[i].0 == id && self.items[i].1 == idx {
                return Some(self.items[i].2.duplicate());
            }
            i = i + 1;
        }
        proof {
            assert(self@.skip(self.items.len() as int).len() == 0);
        }
        None
    }

    /// Whether no cached block carries this table id: the state a cache must
    /// be in before a table with that id starts using it. A fresh cache
    /// qualifies for every id.
    pub fn is_clean_for(&self, id: usize) -> (r: bool)
        ensures
            r == cache_clean(self@, id),
    {
        let mut i: usize = 0;
        while i < self.items.len()
            invariant
                i <= self.items.len(),
                forall|j: int| 0 <= j < i ==> (#[trigger] self@[j]).0 != id,
            decreases self.items.len() - i,
        {
            if self.items[i].0 == id {
                return false;
            }
            i = i + 1;
        }
        true
    }

    /// Stores a block at the front, shadowing older entries under the key.
    pub fn insert(&mut self, id: usize, idx: usize, block: Block)
        ensures
            final(self)@.len() == old(self)@.len() + 1,
            final(self)@[0] == (id, idx, block),
            forall|j: int| 1 <= j < final(self)@.len()
                ==> #[trigger] final(self)@[j] == old(self)@[j - 1],
    {
        let ghost olde = self.items@;
        self.items.insert(0, (id, idx, block));
        proof {
            olde.insert_ensures(0, (id, idx, block));
        }
    }
}

/// No cached block claims this table id: the state a cache must be in before
/// a table with that id starts using it.
pub open spec fn cache_clean(s: Seq<(usize, usize, Block)>, id: usize) -> bool {
    forall|j: int| 0 <= j < s.len() ==> (#[trigger] s[j]).0 != id
}

/// Every cached block under this table id holds that block's entries.
pub open spec fn cache_ok(s: Seq<(usize, usize, Block)>, id: usize,
    bs: Seq<Seq<EntryForm>>) -> bool {
    forall|j: int| 0 <= j < s.len() && (#[trigger] s[j]).0 == id
        ==> 0 <= s[j].1 < bs.len() && s[j].2@ == bs[s[j].1 as int]
}

/// A consistent cache only answers with the true block.
pub proof fn lemma_cache_find_ok(
    s: Seq<(usize, usize, Block)>,
    id: usize,
    idx: usize,
    bs: Seq<Seq<EntryForm>>,
)
    requires
        cache_ok(s, id, bs),
        cache_find(s, id, idx) is Some,
    ensures
        idx < bs.len(),
        cache_find(s, id, idx) == Some(bs[idx as int]),
    decreases s.len(),
{
    if s.len() > 0 {
        if s[0].0 == id && s[0].1 == idx {
        } else {
            assert(forall|j: int| 0 <= j < s.skip(1).len()
                ==> #[trigger] s.skip(1)[j] == s[j + 1]);
            lemma_cache_find_ok(s.skip(1), id, idx, bs);
        }
    }
}


/// The concatenated encodings of a list of blocks.
pub open spec fn blocks_enc(bs: Seq<Seq<EntryForm>>) -> Seq<u8>
    decreases bs.len(),
{
    if bs.len() == 0 {
        Seq::empty()
    } else {
        block_enc(bs[0]) + blocks_enc(bs.skip(1))
    }
}

/// The byte length of the first `i` encoded blocks.
pub open spec fn enc_upto(bs: Seq<Seq<EntryForm>>, i: int) -> nat
    decreases i,
{
    if i <= 0 || bs.len() == 0 {
        0
    } else if i > bs.len() {
        enc_upto(bs, bs.len() as int)
    } else {
        enc_upto(bs, i - 1) + block_enc(bs[i - 1]).len()
    }
}

pub proof fn lemma_enc_upto_skip(bs: Seq<Seq<EntryForm>>, i: int)
    requires
        bs.len() > 0,
        1 <= i <= bs.len(),
    ensures
        enc_upto(bs, i) == block_enc(bs[0]).len() + enc_upto(bs.skip(1), i - 1),
    decreases i,
{
    if i == 1 {
        assert(enc_upto(bs, 0) == 0);
        assert(enc_upto(bs.skip(1), 0) == 0);
    } else {
        lemma_enc_upto_skip(bs, i - 1);
        assert(bs.skip(1)[i - 2] == bs[i - 1]);
    }
}

pub proof fn lemma_blocks_enc_len(bs: Seq<Seq<EntryForm>>)
    ensures
        blocks_enc(bs).len() == enc_upto(bs, bs.len() as int),
    decreases bs.len(),
{
    if bs.len() > 0 {
        lemma_blocks_enc_len(bs.skip(1));
        lemma_enc_upto_skip(bs, bs.len() as int);
    }
}

/// Appending one block extends the concatenation by its encoding, and keeps
/// every earlier prefix length.
pub proof fn lemma_blocks_enc_push(bs: Seq<Seq<EntryForm>>, b: Seq<EntryForm>)
    ensures
        blocks_enc(bs.push(b)) == blocks_enc(bs) + block_enc(b),
        forall|i: int| 0 <= i <= bs.len() ==> #[trigger] enc_upto(bs.push(b), i) == enc_upto(bs, i),
        enc_upto(bs.push(b), bs.len() as int + 1) == enc_upto(bs, bs.len() as int) + block_enc(b).len(),
    decreases bs.len(),
{
    if bs.len() == 0 {
        assert(bs.push(b)[0] == b);
        assert(bs.push(b).skip(1) =~= Seq::<Seq<EntryForm>>::empty());
        assert(blocks_enc(Seq::<Seq<EntryForm>>::empty()) == Seq::<u8>::empty());
        assert(bs =~= Seq::<Seq<EntryForm>>::empty());
        assert(blocks_enc(bs.push(b)) =~= blocks_enc(bs) + block_enc(b));
        assert(forall|i: int| 0 <= i <= bs.len()
            ==> #[trigger] enc_upto(bs.push(b), i) == enc_upto(bs, i));
        assert(enc_upto(bs.push(b), 1) == enc_upto(bs.push(b), 0) + block_enc(b).len());
    } else {
        assert(bs.push(b)[0] == bs[0]);
        assert(bs.push(b).skip(1) =~= bs.skip(1).push(b));
        lemma_blocks_enc_push(bs.skip(1), b);
        assert(blocks_enc(bs.push(b))
            =~= block_enc(bs[0]) + (blocks_enc(bs.skip(1)) + block_enc(b)));
        assert(blocks_enc(bs) + block_enc(b)
            =~= block_enc(bs[0]) + (blocks_enc(bs.skip(1)) + block_enc(b)));
        assert forall|i: int| 0 <= i <= bs.len()
            implies #[trigger] enc_upto(bs.push(b), i) == enc_upto(bs, i) by {
            if i >= 1 {
                lemma_enc_upto_skip(bs.push(b), i);
                lemma_enc_upto_skip(bs, i);
            }
        }
        lemma_enc_upto_skip(bs.push(b), bs.len() as int + 1);
        lemma_enc_upto_skip(bs, bs.len() as int);
    }
}

/// The bytes of block `i` sit between its prefix length and the next one.
pub proof fn lemma_blocks_enc_region(bs: Seq<Seq<EntryForm>>, i: int)
    requires
        0 <= i < bs.len(),
    ensures
        enc_upto(bs, i) + block_enc(bs[i]).len() == enc_upto(bs, i + 1),
        enc_upto(bs, i + 1) <= blocks_enc(bs).len(),
        blocks_enc(bs).subrange(enc_upto(bs, i) as int, enc_upto(bs, i + 1) as int)
            == block_enc(bs[i]),
    decreases i,
{
    lemma_blocks_enc_len(bs);
    lemma_enc_upto_mono(bs, i + 1, bs.len() as int);
    if i == 0 {
        assert(enc_upto(bs, 0) == 0);
        assert(blocks_enc(bs).subrange(0, block_enc(bs[0]).len() as int)
            =~= block_enc(bs[0]));
    } else {
        lemma_enc_upto_skip(bs, i);
        lemma_enc_upto_skip(bs, i + 1);
        lemma_blocks_enc_region(bs.skip(1), i - 1);
        assert(bs.skip(1)[i - 1] == bs[i]);
        let h = block_enc(bs[0]).len() as int;
        assert(blocks_enc(bs).subrange(enc_upto(bs, i) as int, enc_upto(bs, i + 1) as int)
            =~= blocks_enc(bs.skip(1)).subrange(
                enc_upto(bs.skip(1), i - 1) as int, enc_upto(bs.skip(1), i) as int));
    }
}

pub proof fn lemma_enc_upto_mono(bs: Seq<Seq<EntryForm>>, i: int, j: int)
    requires
        i <= j,
    ensures
        enc_upto(bs, i) <= enc_upto(bs, j),
    decreases j - i,
{
    if i < j {
        lemma_enc_upto_mono(bs, i, j - 1);
    }
}

/// Appending a block keeps every flat prefix and extends the whole.
pub proof fn lemma_flat_push(bs: Seq<Seq<EntryForm>>, b: Seq<EntryForm>)
    ensures
        flat(bs.push(b)) == flat(bs) + b,
    decreases bs.len(),
{
    if bs.len() == 0 {
        assert(bs.push(b)[0] == b);
        assert(bs.push(b).skip(1) =~= Seq::<Seq<EntryForm>>::empty());
        assert(flat(Seq::<Seq<EntryForm>>::empty()) == Seq::<EntryForm>::empty());
        assert(bs =~= Seq::<Seq<EntryForm>>::empty());
        assert(flat(bs.push(b)) =~= flat(bs) + b);
    } else {
        assert(bs.push(b)[0] == bs[0]);
        assert(bs.push(b).skip(1) =~= bs.skip(1).push(b));
        lemma_flat_push(bs.skip(1), b);
        assert(flat(bs.push(b)) =~= bs[0] + (flat(bs.skip(1)) + b));
        assert(flat(bs) + b =~= bs[0] + (flat(bs.skip(1)) + b));
    }
}

/// An SST reader: the parsed index, the file, the logical blocks, and an
/// optional cache.
pub struct SsTable {
    id: usize,
    file: FileObject,
    block_metas: Vec<BlockMeta>,
    block_meta_offset: usize,
    block_cache: BlockCache,
    cache_enabled: bool,
    blocks: Ghost<Seq<Seq<EntryForm>>>,
}

impl SsTable {
    /// The table id, the key cached blocks carry.
    pub closed spec fn spec_id(&self) -> usize {
        self.id
    }

    /// The logical entries of each block, in order.
    pub closed spec fn spec_blocks(&self) -> Seq<Seq<EntryForm>> {
        self.blocks@
    }

    /// The parsed index.
    pub closed spec fn spec_metas(&self) -> Seq<MetaForm> {
        metas_vm(self.block_metas@)
    }

    /// The file bytes backing the table.
    pub closed spec fn file_bytes(&self) -> Seq<u8> {
        self.file@
    }

    /// All entries of the table, in key order.
    pub open spec fn entries(&self) -> Seq<EntryForm> {
        flat(self.spec_blocks())
    }

    /// The file decomposes as the index describes: data blocks back to back,
    /// the encoded index, and the trailer; cached blocks are true.
    pub closed spec fn wf_shape(&self) -> bool {
        let ms = self.spec_metas();
        let bs = self.spec_blocks();
        let bmo = self.block_meta_offset as int;
        let fb = self.file@;
        &&& ms.len() == bs.len()
        &&& 1 <= ms.len() < 0x80000000
        &&& self.block_meta_offset < 0x100000000
        &&& bmo + meta_enc(ms).len() + 4 == fb.len()
        &&& fb.subrange(bmo, fb.len() - 4) == meta_enc(ms)
        &&& fb.subrange(fb.len() - 4, fb.len() as int)
            == be_bytes(self.block_meta_offset as nat, 4)
        &&& metas_fit(ms)
        &&& forall|i: int| 0 <= i < ms.len() ==> {
            let end: int = if i + 1 < ms.len() { ms[i + 1].0 as int } else { bmo };
            &&& (#[trigger] ms[i]).0 <= end <= bmo
            &&& entries_fit(bs[i])
            &&& fb.subrange(ms[i].0 as int, end) == block_enc(bs[i])
        }
        &&& cache_ok(self.block_cache@, self.id, bs)
    }

    /// Blocks are nonempty, the index's first keys are the blocks' first
    /// keys, and the entries ascend strictly across the whole table.
    pub closed spec fn wf_order(&self) -> bool {
        let ms = self.spec_metas();
        let bs = self.spec_blocks();
        &&& forall|i: int| 0 <= i < bs.len() ==> (#[trigger] bs[i]).len() >= 1
        &&& forall|i: int| 0 <= i < ms.len() ==> (#[trigger] ms[i]).1 == bs[i][0].0
        &&& sorted_strict(flat(bs))
    }

    /// A fully well-formed table.
    pub open spec fn wf(&self) -> bool {
        self.wf_shape() && self.wf_order()
    }

    /// The parsed index entries.
    pub fn block_metas(&self) -> (r: &Vec<BlockMeta>)
        ensures
            metas_vm(r@) == self.spec_metas(),
    {
        &self.block_metas
    }

    /// The file image backing the table.
    pub fn file_object(&self) -> (r: &FileObject)
        ensures
            r@ == self.file_bytes(),
    {
        &self.file
    }

    /// The number of data blocks.
    pub fn num_of_blocks(&self) -> (r: usize)
        ensures
            r == self.spec_metas().len(),
            self.wf_shape() ==> r == self.spec_blocks().len(),
    {
        self.block_metas.len()
    }

    /// Reads and decodes block `block_idx` from the file.
    pub fn read_block(&self, block_idx: usize) -> (r: Result<Block, Error>)
        requires
            self.wf_shape(),
            block_idx < self.spec_blocks().len(),
        ensures
            r is Ok,
            r matches Ok(blk) ==> blk@ == self.spec_blocks()[block_idx as int],
    {
        let i = block_idx;
        let start = self.block_metas[i].offset;
        let end = if i + 1 < self.block_metas.len() {
            self.block_metas[i + 1].offset
        } else {
            self.block_meta_offset
        };
        proof {
            assert(self.spec_metas()[i as int] == (
                self.block_metas@[i as int].offset as nat,
                self.block_metas@[i as int].first_key@,
            ));
            if i + 1 < self.block_metas.len() {
                assert(self.spec_metas()[i + 1] == (
                    self.block_metas@[i + 1].offset as nat,
                    self.block_metas@[i + 1].first_key@,
                ));
            }
        }
        let raw = match self.read(start, end) {
            Ok(v) => v,
            Err(e) => {
                return Err(e);
            },
        };
        proof {
            lemma_block_round_trip(self.spec_blocks()[i as int]);
        }
        match Block::decode(raw.as_slice()) {
            Ok(blk) => Ok(blk),
            Err(e) => Err(e),
        }
    }

    /// Positional read of a block region, bounds justified by the shape.
    fn read(&self, start: usize, end: usize) -> (r: Result<Vec<u8>, Error>)
        requires
            self.wf_shape(),
            start <= end <= self.block_meta_offset,
        ensures
            r is Ok,
            r matches Ok(v) ==> v@ == self.file@.subrange(start as int, end as int),
    {
        self.file.read(start, end - start)
    }

    /// Reads a block through the cache when one is attached: a hit returns
    /// the cached copy, a miss loads and populates. Either way the result is
    /// the block the file holds.
    pub fn read_block_cached(&mut self, block_idx: usize) -> (r: Result<Block, Error>)
        requires
            old(self).wf_shape(),
            block_idx < old(self).spec_blocks().len(),
        ensures
            final(self).wf_shape(),
            final(self).spec_blocks() == old(self).spec_blocks(),
            final(self).spec_metas() == old(self).spec_metas(),
            final(self).spec_id() == old(self).spec_id(),
            final(self).file_bytes() == old(self).file_bytes(),
            final(self).wf_order() == old(self).wf_order(),
            r is Ok,
            r matches Ok(blk) ==> blk@ == old(self).spec_blocks()[block_idx as int],
    {
        if self.cache_enabled {
            match self.block_cache.get(self.id, block_idx) {
                Some(b) => {
                    proof {
                        lemma_cache_find_ok(
                            self.block_cache@, self.id, block_idx, self.spec_blocks());
                    }
                    return Ok(b);
                },
                None => {},
            }
        }
        let blk = match self.read_block(block_idx) {
            Ok(b) => b,
            Err(e) => {
                return Err(e);
            },
        };
        if self.cache_enabled {
            let dup = blk.duplicate();
            let ghost oldc = self.block_cache@;
            self.block_cache.insert(self.id, block_idx, dup);
            proof {
                assert forall|j: int| 0 <= j < self.block_cache@.len()
                    && (#[trigger] self.block_cache@[j]).0 == self.id
                    implies 0 <= self.block_cache@[j].1 < self.spec_blocks().len()
                        && self.block_cache@[j].2@
                            == self.spec_blocks()[self.block_cache@[j].1 as int] by {
                    if j > 0 {
                        assert(self.block_cache@[j] == oldc[j - 1]);
                    }
                }
            }
        }
        Ok(blk)
    }

    /// The index of the rightmost block whose first key is at or before
    /// `key`, or -1 when every first key comes after it.
    pub fn front_find_block_idx(&self, key: &[u8]) -> (r: i32)
        requires
            self.wf(),
        ensures
            -1 <= r < self.spec_metas().len(),
            forall|j: int| 0 <= j <= r ==> lex_le((#[trigger] self.spec_metas()[j]).1, key@),
            forall|j: int| r < j < self.spec_metas().len()
                ==> lex_lt(key@, (#[trigger] self.spec_metas()[j]).1),
    {
        proof {
            self.lemma_first_keys_sorted();
        }
        let n = self.block_metas.len();
        let mut i: usize = 0;
        while i < n
            invariant
                i <= n,
                n == self.block_metas@.len(),
                n == self.spec_metas().len(),
                n < 0x80000000,
                forall|x: int, y: int| 0 <= x < y < n
                    ==> lex_lt((#[trigger] self.spec_metas()[x]).1,
                        (#[trigger] self.spec_metas()[y]).1),
                forall|j: int| 0 <= j < i
                    ==> lex_le((#[trigger] self.spec_metas()[j]).1, key@),
            decreases n - i,
        {
            proof {
                assert(self.spec_metas()[i as int].1 == self.block_metas@[i as int].first_key@);
            }
            if crate::bytes_order::bytes_lt(key, self.block_metas[i].first_key.as_slice()) {
                proof {
                    assert forall|j: int| i <= j < n
                        implies lex_lt(key@, (#[trigger] self.spec_metas()[j]).1) by {
                        if j > i {
                            crate::bytes_order::lemma_lex_trans(
                                key@,
                                self.spec_metas()[i as int].1,
                                self.spec_metas()[j].1,
                            );
                        }
                    }
                    crate::bytes_order::lemma_lex_trichotomy(
                        self.spec_metas()[i as int].1, key@);
                }
                return (i as i32) - 1;
            }
            proof {
                crate::bytes_order::lemma_lex_trichotomy(self.spec_metas()[i as int].1, key@);
            }
            i = i + 1;
        }
        (n as i32) - 1
    }

    /// The number of blocks whose first key is strictly before `key`.
    pub fn back_find_block_idx(&self, key: &[u8]) -> (r: i32)
        requires
            self.wf(),
        ensures
            0 <= r <= self.spec_metas().len(),
            forall|j: int| 0 <= j < r ==> lex_lt((#[trigger] self.spec_metas()[j]).1, key@),
            forall|j: int| r <= j < self.spec_metas().len()
                ==> !lex_lt((#[trigger] self.spec_metas()[j]).1, key@),
    {
        proof {
            self.lemma_first_keys_sorted();
        }
        let n = self.block_metas.len();
        let mut i: usize = 0;
        while i < n
            invariant
                i <= n,
                n == self.block_metas@.len(),
                n == self.spec_metas().len(),
                n < 0x80000000,
                forall|x: int, y: int| 0 <= x < y < n
                    ==> lex_lt((#[trigger] self.spec_metas()[x]).1,
                        (#[trigger] self.spec_metas()[y]).1),
                forall|j: int| 0 <= j < i
                    ==> lex_lt((#[trigger] self.spec_metas()[j]).1, key@),
            decreases n - i,
        {
            proof {
                assert(self.spec_metas()[i as int].1 == self.block_metas@[i as int].first_key@);
            }
            if !crate::bytes_order::bytes_lt(self.block_metas[i].first_key.as_slice(), key) {
                proof {
                    assert forall|j: int| i <= j < n
                        implies !lex_lt((#[trigger] self.spec_metas()[j]).1, key@) by {
                        if j > i {
                            crate::bytes_order::lemma_lex_trichotomy(
                                self.spec_metas()[j].1, key@);
                            if lex_lt(self.spec_metas()[j].1, key@) {
                                crate::bytes_order::lemma_lex_trans(
                                    self.spec_metas()[i as int].1,
                                    self.spec_metas()[j].1,
                                    key@,
                                );
                            }
                        }
                    }
                }
                return i as i32;
            }
            i = i + 1;
        }
        n as i32
    }

    /// A shaped table's file image parses back: the trailer locates the
    /// index, the index decodes to exactly the parsed metas, and every block
    /// region decodes. This is the build/parse fidelity of the format.
    #[verifier::rlimit(100)]
    #[verifier::spinoff_prover]
    pub proof fn lemma_parses(&self)
        requires
            self.wf_shape(),
        ensures
            sst_parses(self.file_bytes()),
            be_val(self.file_bytes().subrange(self.file_bytes().len() - 4,
                self.file_bytes().len() as int)) == self.spec_meta_offset(),
            meta_dec(self.file_bytes().subrange(self.spec_meta_offset() as int,
                self.file_bytes().len() - 4)) == Some(self.spec_metas()),
    {
        let fb = self.file_bytes();
        let ms = self.spec_metas();
        let bs = self.spec_blocks();
        let bmo = self.spec_meta_offset() as int;
        reveal_with_fuel(pow256, 5);
        lemma_be_bytes_len(self.spec_meta_offset(), 4);
        lemma_be_bytes_val(self.spec_meta_offset(), 4);
        lemma_meta_round_trip(ms);
        assert forall|i: int| 0 <= i < ms.len() implies {
            let end: int = if i + 1 < ms.len() { ms[i + 1].0 as int } else { bmo };
            (#[trigger] ms[i]).0 <= end <= bmo
                && block_dec(fb.subrange(ms[i].0 as int, end)) is Some
        } by {
            lemma_block_round_trip(bs[i]);
        }
    }

    /// In a well-formed table the index's offsets ascend strictly: each
    /// block occupies a nonempty region before the next one's.
    #[verifier::rlimit(100)]
    #[verifier::spinoff_prover]
    pub proof fn lemma_meta_offsets_strict(&self)
        requires
            self.wf(),
        ensures
            forall|i: int| 0 <= i && i + 1 < self.spec_metas().len()
                ==> (#[trigger] self.spec_metas()[i]).0 < self.spec_metas()[i + 1].0,
            self.spec_metas().len() > 0
                ==> self.spec_metas()[self.spec_metas().len() - 1].0
                    < self.spec_meta_offset(),
    {
        let fb = self.file_bytes();
        let ms = self.spec_metas();
        let bs = self.spec_blocks();
        let bmo = self.spec_meta_offset() as int;
        assert forall|i: int| 0 <= i < ms.len() implies {
            let end: int = if i + 1 < ms.len() { ms[i + 1].0 as int } else { bmo };
            (#[trigger] ms[i]).0 < end
        } by {
            let end: int = if i + 1 < ms.len() { ms[i + 1].0 as int } else { bmo };
            assert(ms[i].0 <= end <= bmo && entries_fit(bs[i])
                && fb.subrange(ms[i].0 as int, end) == block_enc(bs[i]));
            lemma_block_round_trip(bs[i]);
            assert(fb.subrange(ms[i].0 as int, end).len() == block_enc(bs[i]).len());
            assert(entries_size(bs[i]) >= entry_size(bs[i][0])) by {
                assert(entries_size(bs[i])
                    == entry_size(bs[i][0]) + entries_size(bs[i].skip(1)));
            }
        }
    }

    /// The facts a well-formed table exposes to its iterators.
    pub proof fn lemma_wf_facts(&self)
        requires
            self.wf(),
        ensures
            self.spec_blocks().len() == self.spec_metas().len(),
            1 <= self.spec_blocks().len() < 0x80000000,
            forall|i: int| 0 <= i < self.spec_blocks().len()
                ==> (#[trigger] self.spec_blocks()[i]).len() >= 1,
            forall|i: int| 0 <= i < self.spec_metas().len()
                ==> (#[trigger] self.spec_metas()[i]).1 == self.spec_blocks()[i][0].0,
            sorted_strict(flat(self.spec_blocks())),
    {
    }

    /// The index's first keys ascend strictly: each is its block's first
    /// entry, and the table's entries ascend.
    pub proof fn lemma_first_keys_sorted(&self)
        requires
            self.wf(),
        ensures
            forall|x: int, y: int| 0 <= x < y < self.spec_metas().len()
                ==> lex_lt((#[trigger] self.spec_metas()[x]).1,
                    (#[trigger] self.spec_metas()[y]).1),
    {
        let ms = self.spec_metas();
        let bs = self.spec_blocks();
        assert forall|x: int, y: int| 0 <= x < y < ms.len()
            implies lex_lt((#[trigger] ms[x]).1, (#[trigger] ms[y]).1) by {
            lemma_flat_index(bs, x, 0);
            lemma_flat_index(bs, y, 0);
            lemma_count_upto_mono(bs, x + 1, y);
            assert(count_upto(bs, x + 1) == count_upto(bs, x) + bs[x].len());
            assert(count_upto(bs, x) < count_upto(bs, y));
            assert(lex_lt(flat(bs)[count_upto(bs, x) as int].0, flat(bs)[count_upto(bs, y) as int].0));
        }
    }

    /// Every key in block `i` is at or after the block's first key, and
    /// strictly before the next block's first key.
    pub proof fn lemma_block_key_bounds(&self, i: int, j: int)
        requires
            self.wf(),
            0 <= i < self.spec_blocks().len(),
            0 <= j < self.spec_blocks()[i].len(),
        ensures
            lex_le(self.spec_metas()[i].1, self.spec_blocks()[i][j].0),
            i + 1 < self.spec_metas().len()
                ==> lex_lt(self.spec_blocks()[i][j].0, self.spec_metas()[i + 1].1),
    {
        let ms = self.spec_metas();
        let bs = self.spec_blocks();
        lemma_flat_index(bs, i, 0);
        lemma_flat_index(bs, i, j);
        if j > 0 {
            assert(lex_lt(flat(bs)[count_upto(bs, i) as int].0,
                flat(bs)[count_upto(bs, i) + j].0));
        }
        if i + 1 < ms.len() {
            lemma_flat_index(bs, i + 1, 0);
            lemma_count_upto_mono(bs, i + 1, i + 1);
            assert(count_upto(bs, i + 1) == count_upto(bs, i) + bs[i].len());
            assert(lex_lt(flat(bs)[count_upto(bs, i) + j].0,
                flat(bs)[count_upto(bs, i + 1) as int].0));
        }
    }
}


/// Every key is nonempty: the builder's first-key holder uses emptiness as
/// its unset state.
pub open spec fn entries_keyed(es: Seq<EntryForm>) -> bool {
    forall|i: int| 0 <= i < es.len() ==> (#[trigger] es[i]).0.len() >= 1
}

/// Builds an SST from entries added in ascending key order, partitioning
/// them into blocks of a target byte size.
pub struct SsTableBuilder {
    /// The index built so far, one entry per finished block.
    pub meta: Vec<BlockMeta>,
    data: Vec<u8>,
    cur_block_first_key: Vec<u8>,
    block_builder: BlockBuilder,
    block_size: usize,
    done_blocks: Ghost<Seq<Seq<EntryForm>>>,
}

impl SsTableBuilder {
    /// The finished blocks.
    pub closed spec fn spec_done(&self) -> Seq<Seq<EntryForm>> {
        self.done_blocks@
    }

    /// The entries buffered in the current block.
    pub closed spec fn spec_cur(&self) -> Seq<EntryForm> {
        self.block_builder@
    }

    /// The index built so far, in mathematical form: one (offset, first key)
    /// per finished block.
    pub closed spec fn spec_index(&self) -> Seq<MetaForm> {
        metas_vm(self.meta@)
    }

    /// Everything added so far, in order.
    pub open spec fn all_entries(&self) -> Seq<EntryForm> {
        flat(self.spec_done()) + self.spec_cur()
    }

    /// The bytes the table body will need so far.
    pub closed spec fn byte_budget(&self) -> nat {
        self.data@.len() + entries_size(self.block_builder@)
    }

    /// The accumulated data-buffer length.
    pub closed spec fn spec_data_len(&self) -> nat {
        self.data@.len()
    }

    /// The target block size.
    pub closed spec fn spec_block_size(&self) -> nat {
        self.block_size as nat
    }

    /// The builder's invariant: the data buffer is the concatenation of the
    /// finished blocks' encodings, the index matches them, keys ascend
    /// strictly, and everything stays within the format's fixed widths.
    pub closed spec fn wf(&self) -> bool {
        let ms = metas_vm(self.meta@);
        let bs = self.done_blocks@;
        &&& self.block_builder.wf()
        &&& self.block_builder.spec_block_size() == self.block_size
        &&& ms.len() == bs.len()
        &&& ms.len() * 5 <= self.data@.len()
        &&& self.data@.len() + entries_size(self.block_builder@) < 0x100000000
        &&& forall|i: int| 0 <= i < bs.len() ==> (#[trigger] bs[i]).len() >= 1
        &&& forall|i: int| 0 <= i < bs.len() ==> entries_fit(#[trigger] bs[i])
        &&& forall|i: int| 0 <= i < ms.len()
            ==> (#[trigger] ms[i]).1 == bs[i][0].0 && ms[i].0 == enc_upto(bs, i)
        &&& self.data@ == blocks_enc(bs)
        &&& sorted_strict(self.all_entries())
        &&& entries_fit(self.block_builder@)
        &&& entries_keyed(self.all_entries())
        &&& (self.block_builder@.len() > 0
            ==> self.cur_block_first_key@ == self.block_builder@[0].0)
        &&& (self.block_builder@.len() == 0 ==> self.cur_block_first_key@.len() == 0)
    }

    /// A fresh builder for blocks of the given target size.
    pub fn new(block_size: usize) -> (r: SsTableBuilder)
        ensures
            r.wf(),
            r.all_entries() == Seq::<EntryForm>::empty(),
            r.spec_block_size() == block_size,
            r.byte_budget() == 0,
            r.spec_index() == Seq::<MetaForm>::empty(),
            r.spec_data_len() == 0,
            r.spec_cur() == Seq::<EntryForm>::empty(),
    {
        let r = SsTableBuilder {
            meta: Vec::new(),
            data: Vec::new(),
            cur_block_first_key: Vec::new(),
            block_builder: BlockBuilder::new(block_size),
            block_size,
            done_blocks: Ghost(Seq::empty()),
        };
        proof {
            assert(metas_vm(r.meta@) =~= Seq::<MetaForm>::empty());
            assert(r.data@ =~= blocks_enc(Seq::<Seq<EntryForm>>::empty()));
            assert(r.all_entries() =~= Seq::<EntryForm>::empty());
        }
        r
    }

    /// Appends a key/value pair. Keys are nonempty, fit their length field,
    /// and must strictly ascend; when the current block is full it is
    /// finished and a new one absorbs the pair.
    pub fn add(&mut self, key: &[u8], value: &[u8])
        requires
            old(self).wf(),
            1 <= key@.len() <= 0xffff,
            value@.len() <= 0xffff,
            forall|i: int| 0 <= i < old(self).all_entries().len()
                ==> lex_lt((#[trigger] old(self).all_entries()[i]).0, key@),
            old(self).byte_budget() + 4 + key@.len() + value@.len() < 0x100000000,
        ensures
            final(self).wf(),
            final(self).all_entries() == old(self).all_entries().push((key@, value@)),
            final(self).spec_block_size() == old(self).spec_block_size(),
            final(self).byte_budget()
                == old(self).byte_budget() + 4 + key@.len() + value@.len(),
            ({
                // The partition step: a pair that no longer fits the current
                // block finishes it — one index entry, its bytes appended —
                // and starts the next block.
                let e = (key@, value@);
                let finishes = old(self).spec_cur().len() > 0 && entries_size(
                    old(self).spec_cur()) + entry_size(e) > old(self).spec_block_size();
                if finishes {
                    &&& final(self).spec_index() == old(self).spec_index().push(
                        (old(self).spec_data_len(), old(self).spec_cur()[0].0))
                    &&& final(self).spec_data_len() == old(self).spec_data_len()
                        + entries_size(old(self).spec_cur())
                    &&& final(self).spec_cur() == seq![e]
                } else {
                    &&& final(self).spec_index() == old(self).spec_index()
                    &&& final(self).spec_data_len() == old(self).spec_data_len()
                    &&& final(self).spec_cur() == old(self).spec_cur().push(e)
                }
            }),
    {
        let ghost pre = *self;
        let was_empty = self.block_builder.len() == 0;
        let ok = self.block_builder.add(key, value);
        if ok {
            if was_empty {
                self.cur_block_first_key = slice_to_vec(key);
            }
        } else {
            self.finalize_block();
            let ok2 = self.block_builder.add(key, value);
            assert(ok2);
            self.cur_block_first_key = slice_to_vec(key);
        }
        proof {
            let e = (key@, value@);
            if ok {
                lemma_block_enc_push(pre.spec_cur(), e);
                assert(pre.spec_cur().len() == 0 ==> pre.spec_cur().push(e)[0] == e);
                assert(pre.spec_cur().len() > 0 ==> pre.spec_cur().push(e)[0]
                    == pre.spec_cur()[0]);
                assert(flat(self.spec_done()) + pre.spec_cur().push(e)
                    =~= (flat(pre.spec_done()) + pre.spec_cur()).push(e));
            } else {
                lemma_block_enc_push(Seq::<EntryForm>::empty(), e);
                assert(entries_size(Seq::<EntryForm>::empty()) == 0);
                assert(Seq::<EntryForm>::empty().push(e)[0] == e);
                assert(self.spec_cur() =~= seq![e]);
                lemma_flat_push(pre.spec_done(), pre.spec_cur());
                assert(flat(self.spec_done()) + self.spec_cur()
                    =~= (flat(pre.spec_done()) + pre.spec_cur()).push(e));
            }
            assert(self.all_entries() =~= old(self).all_entries().push(e));
            let alln = self.all_entries();
            let allo = old(self).all_entries();
            assert forall|x: int, y: int| 0 <= x < y < alln.len()
                implies lex_lt((#[trigger] alln[x]).0, (#[trigger] alln[y]).0) by {
                if y == alln.len() - 1 {
                    assert(alln[x] == allo[x]);
                } else {
                    assert(alln[x] == allo[x] && alln[y] == allo[y]);
                }
            }
            assert forall|i: int| 0 <= i < alln.len()
                implies (#[trigger] alln[i]).0.len() >= 1 by {
                if i < alln.len() - 1 {
                    assert(alln[i] == allo[i]);
                }
            }
        }
    }

    /// Finishes the current block: encodes it onto the data buffer and
    /// records its offset and first key in the index. A no-op on an empty
    /// block.
    fn finalize_block(&mut self)
        requires
            old(self).wf(),
        ensures
            final(self).wf(),
            final(self).all_entries() == old(self).all_entries(),
            final(self).spec_cur() == Seq::<EntryForm>::empty(),
            final(self).spec_block_size() == old(self).spec_block_size(),
            final(self).byte_budget() == old(self).byte_budget(),
            final(self).spec_done() == (if old(self).spec_cur().len() == 0 {
                old(self).spec_done()
            } else {
                old(self).spec_done().push(old(self).spec_cur())
            }),
            final(self).spec_index() == (if old(self).spec_cur().len() == 0 {
                old(self).spec_index()
            } else {
                old(self).spec_index().push(
                    (old(self).spec_data_len(), old(self).spec_cur()[0].0))
            }),
            final(self).spec_data_len() == old(self).spec_data_len()
                + entries_size(old(self).spec_cur()),
    {
        if self.block_builder.len() == 0 {
            proof {
                assert(self.spec_cur() =~= Seq::<EntryForm>::empty());
            }
            return ;
        }
        let ghost oldbs = self.done_blocks@;
        let ghost cur = self.block_builder@;
        let ghost oldms = metas_vm(self.meta@);
        let blk = self.block_builder.finish_and_reset();
        let mut encoded = blk.encode();
        let offset = self.data.len();
        let mut fk: Vec<u8> = Vec::new();
        core::mem::swap(&mut fk, &mut self.cur_block_first_key);
        proof {
            // The current block's entries are part of the sorted whole.
            assert forall|x: int| 0 <= x < cur.len()
                implies (#[trigger] cur[x]).0.len() >= 1 by {
                assert(old(self).all_entries()[flat(oldbs).len() + x] == cur[x]);
            }
        }
        self.meta.push(BlockMeta { offset, first_key: fk });
        self.data.append(&mut encoded);
        self.done_blocks = Ghost(oldbs.push(cur));
        proof {
            lemma_blocks_enc_push(oldbs, cur);
            lemma_blocks_enc_len(oldbs);
            lemma_block_round_trip(cur);
            lemma_flat_push(oldbs, cur);
            let ms = metas_vm(self.meta@);
            let bs = self.done_blocks@;
            assert(forall|i: int| 0 <= i < oldms.len() ==> #[trigger] ms[i] == oldms[i]);
            assert(ms[oldms.len() as int] == (offset as nat, cur[0].0));
            assert(self.data@ =~= blocks_enc(bs));
            assert(self.all_entries() =~= old(self).all_entries());
            // Each finished block is at least five bytes: one entry with a
            // nonempty key.
            assert(entries_size(cur) >= entry_size(cur[0])) by {
                assert(entries_size(cur) == entry_size(cur[0]) + entries_size(cur.skip(1)));
            }
            assert forall|i: int| 0 <= i < ms.len()
                implies (#[trigger] ms[i]).1 == bs[i][0].0 && ms[i].0 == enc_upto(bs, i) by {
                if i < oldms.len() {
                    assert(bs[i] == oldbs[i]);
                } else {
                    assert(bs[i] == cur);
                }
            }
        }
    }

    /// The number of finished blocks in the index so far.
    pub fn index_len(&self) -> (r: usize)
        ensures
            r == self.spec_index().len(),
    {
        self.meta.len()
    }

    /// The length of the accumulated data buffer; the index is not counted.
    pub fn estimated_size(&self) -> (r: usize)
        ensures
            r == self.spec_data_len(),
    {
        self.data.len()
    }

    /// Finishes the table: flushes the residual block, appends the encoded
    /// index and the trailer, and hands the result to a reader over the
    /// in-memory file image. The attached cache must hold nothing under the
    /// table's id.
    #[verifier::rlimit(100)]
    #[verifier::spinoff_prover]
    pub fn build(self, id: usize, block_cache: Option<BlockCache>) -> (r: SsTable)
        requires
            self.wf(),
            self.all_entries().len() >= 1,
            match block_cache {
                Some(c) => cache_clean(c@, id),
                None => true,
            },
        ensures
            r.wf(),
            r.entries() == self.all_entries(),
            r.spec_id() == id,
            // The residual block, if any, becomes the final index entry.
            r.spec_metas() == (if self.spec_cur().len() == 0 {
                self.spec_index()
            } else {
                self.spec_index().push((self.spec_data_len(), self.spec_cur()[0].0))
            }),
            // The physical layout: data blocks back to back, the encoded
            // index, and the index's offset as a four-byte trailer.
            r.spec_meta_offset() == blocks_enc(r.spec_blocks()).len(),
            r.file_bytes() == blocks_enc(r.spec_blocks()) + meta_enc(r.spec_metas())
                + be_bytes(r.spec_meta_offset(), 4),
            forall|i: int| 0 <= i < r.spec_metas().len()
                ==> (#[trigger] r.spec_metas()[i]).0 == enc_upto(r.spec_blocks(), i),
            // The image parses back to the same index.
            sst_parses(r.file_bytes()),
            meta_dec(r.file_bytes().subrange(r.spec_meta_offset() as int,
                r.file_bytes().len() - 4)) == Some(r.spec_metas()),
    {
        let mut b = self;
        b.finalize_block();
        proof {
            if b.spec_done().len() == 0 {
                lemma_flat_len(b.spec_done());
                assert(b.all_entries() =~= Seq::<EntryForm>::empty());
            }
        }
        let ghost bs = b.spec_done();
        let ghost ms = metas_vm(b.meta@);
        proof {
            // Offsets fit their four bytes and first keys their two.
            assert forall|i: int| 0 <= i < ms.len()
                implies (#[trigger] ms[i]).0 < 0x100000000 && ms[i].1.len() <= 0xffff by {
                lemma_enc_upto_mono(bs, i, bs.len() as int);
                lemma_blocks_enc_len(bs);
                assert(ms[i].1 == bs[i][0].0);
            }
        }
        let block_meta_offset = b.data.len();
        let SsTableBuilder { meta, data, cur_block_first_key: _, block_builder: _,
            block_size: _, done_blocks: _ } = b;
        let mut sst_data = data;
        BlockMeta::encode_block_meta(&meta, &mut sst_data);
        proof {
            reveal_with_fuel(pow256, 5);
        }
        push_be(&mut sst_data, block_meta_offset as u64, 4);
        let file = FileObject::create(sst_data);
        let cache: BlockCache;
        let enabled: bool;
        match block_cache {
            Some(c) => {
                cache = c;
                enabled = true;
            },
            None => {
                cache = BlockCache::new();
                enabled = false;
            },
        }
        let r = SsTable {
            id,
            file,
            block_metas: meta,
            block_meta_offset,
            block_cache: cache,
            cache_enabled: enabled,
            blocks: Ghost(bs),
        };
        proof {
            let fb = r.file@;
            let bmo = block_meta_offset as int;
            lemma_blocks_enc_len(bs);
            lemma_be_bytes_len(block_meta_offset as nat, 4);
            assert(fb =~= blocks_enc(bs) + meta_enc(ms)
                + be_bytes(block_meta_offset as nat, 4));
            assert(fb.subrange(bmo, fb.len() - 4) =~= meta_enc(ms));
            assert(fb.subrange(fb.len() - 4, fb.len() as int)
                =~= be_bytes(block_meta_offset as nat, 4));
            // Each block's region of the file is its encoding.
            assert forall|i: int| 0 <= i < ms.len() implies {
                let end: int = if i + 1 < ms.len() { ms[i + 1].0 as int } else { bmo };
                (#[trigger] ms[i]).0 <= end <= bmo && entries_fit(bs[i])
                    && fb.subrange(ms[i].0 as int, end) == block_enc(bs[i])
            } by {
                lemma_blocks_enc_region(bs, i);
                let end: int = if i + 1 < ms.len() { ms[i + 1].0 as int } else { bmo };
                assert(end == enc_upto(bs, i + 1));
                lemma_enc_upto_mono(bs, i + 1, bs.len() as int);
                assert(fb.subrange(ms[i].0 as int, end)
                    =~= blocks_enc(bs).subrange(enc_upto(bs, i) as int,
                        enc_upto(bs, i + 1) as int));
            }
            assert(r.wf_shape());
            assert(r.wf_order());
            r.lemma_parses();
        }
        r
    }
}


/// A byte string that parses as a meta index is exactly that index's
/// encoding.
#[verifier::rlimit(100)]
#[verifier::spinoff_prover]
pub proof fn lemma_meta_dec_strict(b: Seq<u8>)
    requires
        meta_dec(b) is Some,
    ensures
        metas_fit(meta_dec(b).unwrap()),
        meta_enc(meta_dec(b).unwrap()) == b,
    decreases b.len(),
{
    reveal_with_fuel(pow256, 5);
    if b.len() == 0 {
        assert(meta_enc(Seq::<MetaForm>::empty()) =~= b);
    } else {
        let ms = meta_dec(b).unwrap();
        let offset = be_val(b.subrange(0, 4));
        let klen = be_val(b.subrange(4, 6)) as int;
        let key = b.subrange(6, 6 + klen);
        let rest = meta_dec(b.skip(6 + klen)).unwrap();
        lemma_be_val_bound(b.subrange(0, 4));
        lemma_be_val_bound(b.subrange(4, 6));
        lemma_be_val_bytes(b.subrange(0, 4));
        lemma_be_val_bytes(b.subrange(4, 6));
        lemma_meta_dec_strict(b.skip(6 + klen));
        assert(ms == seq![(offset, key)] + rest);
        assert(ms[0] == (offset, key));
        assert(ms.skip(1) =~= rest);
        assert forall|i: int| 0 <= i < ms.len()
            implies (#[trigger] ms[i]).0 < 0x100000000 && ms[i].1.len() <= 0xffff by {
            if i > 0 {
                assert(ms[i] == rest[i - 1]);
            }
        }
        assert(be_bytes(offset, 4) =~= b.subrange(0, 4));
        assert(be_bytes(key.len(), 2) =~= b.subrange(4, 6));
        assert(meta_enc(ms) =~= b.subrange(0, 4) + b.subrange(4, 6) + key + b.skip(6 + klen));
        assert(meta_enc(ms) =~= b);
    }
}

/// Whether the bytes are a readable SST image: the trailer locates a valid
/// index, and every block region the index describes decodes.
pub open spec fn sst_parses(b: Seq<u8>) -> bool {
    &&& b.len() >= 4
    &&& be_val(b.subrange(b.len() - 4, b.len() as int)) + 4 <= b.len()
    &&& {
        let bmo = be_val(b.subrange(b.len() - 4, b.len() as int)) as int;
        match meta_dec(b.subrange(bmo, b.len() - 4)) {
            None => false,
            Some(ms) => {
                &&& 1 <= ms.len() < 0x80000000
                &&& forall|i: int| 0 <= i < ms.len() ==> {
                    let end: int = if i + 1 < ms.len() { ms[i + 1].0 as int } else { bmo };
                    &&& (#[trigger] ms[i]).0 <= end <= bmo
                    &&& block_dec(b.subrange(ms[i].0 as int, end)) is Some
                }
            },
        }
    }
}

impl SsTable {
    /// The file offset where the index begins.
    pub closed spec fn spec_meta_offset(&self) -> nat {
        self.block_meta_offset as nat
    }

    /// Opens an SST from a file image: parses the trailer and the index and
    /// checks that every block decodes. Succeeds exactly on readable images;
    /// the attached cache must hold nothing under the table's id.
    #[verifier::rlimit(100)]
    #[verifier::spinoff_prover]
    pub fn open(id: usize, block_cache: Option<BlockCache>, file: FileObject)
        -> (r: Result<SsTable, Error>)
        requires
            match block_cache {
                Some(c) => cache_clean(c@, id),
                None => true,
            },
        ensures
            r is Ok <==> sst_parses(file@),
            match r {
                Ok(t) => {
                    &&& t.wf_shape()
                    &&& t.spec_id() == id
                    &&& t.file_bytes() == file@
                    &&& t.spec_meta_offset()
                        == be_val(file@.subrange(file@.len() - 4, file@.len() as int))
                    &&& meta_dec(file@.subrange(t.spec_meta_offset() as int, file@.len() - 4))
                        == Some(t.spec_metas())
                },
                Err(e) => e == Error::CorruptSstable,
            },
    {
        let fb = file.bytes();
        let flen = fb.len();
        if flen < 4 {
            return Err(Error::CorruptSstable);
        }
        let bmo64 = match take_be(fb, flen - 4, 4) {
            Some(p) => p.0,
            None => {
                return Err(Error::CorruptSstable);
            },
        };
        proof {
            reveal_with_fuel(pow256, 5);
            lemma_be_val_bound(file@.subrange(file@.len() - 4, file@.len() as int));
        }
        let bmo = bmo64 as usize;
        if bmo > flen - 4 {
            return Err(Error::CorruptSstable);
        }
        let meta_raw = slice_subrange(fb, bmo, flen - 4);
        let metas = match BlockMeta::decode_block_meta(meta_raw) {
            Ok(ms) => ms,
            Err(e) => {
                return Err(e);
            },
        };
        let n = metas.len();
        if n < 1 || n >= 0x80000000 {
            proof {
                lemma_metas_vm_len(metas@);
            }
            return Err(Error::CorruptSstable);
        }
        let ghost ms = metas_vm(metas@);
        let mut blks_exec: usize = 0;
        let ghost mut blks: Seq<Seq<EntryForm>> = Seq::empty();
        let mut i: usize = 0;
        while i < n
            invariant
                i <= n,
                n == metas@.len(),
                n == ms.len(),
                ms == metas_vm(metas@),
                1 <= n < 0x80000000,
                metas_fit(ms),
                bmo + 4 <= file@.len(),
                fb@ == file@,
                flen == file@.len(),
                blks.len() == i,
                be_val(file@.subrange(flen - 4, flen as int)) == bmo as nat,
                meta_dec(file@.subrange(bmo as int, flen - 4)) == Some(ms),
                forall|j: int| 0 <= j < i ==> {
                    let end: int = if j + 1 < n { ms[j + 1].0 as int } else { bmo as int };
                    &&& (#[trigger] ms[j]).0 <= end <= bmo
                    &&& block_dec(file@.subrange(ms[j].0 as int, end)) == Some(blks[j])
                },
            decreases n - i,
        {
            let start = metas[i].offset;
            let end = if i + 1 < n {
                metas[i + 1].offset
            } else {
                bmo
            };
            proof {
                assert(ms[i as int] == (metas@[i as int].offset as nat,
                    metas@[i as int].first_key@));
                if i + 1 < n {
                    assert(ms[i + 1] == (metas@[i + 1].offset as nat,
                        metas@[i + 1].first_key@));
                }
            }
            if start > end || end > bmo {
                proof {
                    lemma_not_parses(file@, bmo as int, ms, i as int);
                }
                return Err(Error::CorruptSstable);
            }
            let raw = match file.read(start, end - start) {
                Ok(v) => v,
                Err(e) => {
                    return Err(e);
                },
            };
            match Block::decode(raw.as_slice()) {
                Ok(blk) => {
                    proof {
                        blks = blks.push(blk@);
                    }
                },
                Err(e) => {
                    proof {
                        lemma_not_parses(file@, bmo as int, ms, i as int);
                    }
                    return Err(e);
                },
            }
            i = i + 1;
        }
        let (cache, enabled) = match block_cache {
            Some(c) => (c, true),
            None => (BlockCache::new(), false),
        };
        let r = SsTable {
            id,
            file,
            block_metas: metas,
            block_meta_offset: bmo,
            block_cache: cache,
            cache_enabled: enabled,
            blocks: Ghost(blks),
        };
        proof {
            assert(sst_parses(r.file@));
            lemma_meta_dec_strict(r.file@.subrange(bmo as int, r.file@.len() - 4));
            lemma_be_val_bytes(
                r.file@.subrange(r.file@.len() - 4, r.file@.len() as int));
            assert forall|j: int| 0 <= j < ms.len() implies {
                let end: int = if j + 1 < ms.len() { ms[j + 1].0 as int } else { bmo as int };
                (#[trigger] ms[j]).0 <= end <= bmo && entries_fit(blks[j])
                    && r.file@.subrange(ms[j].0 as int, end) == block_enc(blks[j])
            } by {
                let end: int = if j + 1 < ms.len() { ms[j + 1].0 as int } else { bmo as int };
                crate::block::lemma_block_dec_strict(r.file@.subrange(ms[j].0 as int, end));
            }
            assert(r.wf_shape());
        }
        Ok(r)
    }
}

/// A block region that is malformed or undecodable refutes parseability.
proof fn lemma_not_parses(b: Seq<u8>, bmo: int, ms: Seq<MetaForm>, i: int)
    requires
        b.len() >= 4,
        bmo + 4 <= b.len(),
        be_val(b.subrange(b.len() - 4, b.len() as int)) == bmo,
        meta_dec(b.subrange(bmo, b.len() - 4)) == Some(ms),
        0 <= i < ms.len(),
        ({
            let end: int = if i + 1 < ms.len() { ms[i + 1].0 as int } else { bmo };
            ms[i].0 > end || end > bmo || block_dec(b.subrange(ms[i].0 as int, end)) is None
        }),
    ensures
        !sst_parses(b),
{
    if sst_parses(b) {
        let end: int = if i + 1 < ms.len() { ms[i + 1].0 as int } else { bmo };
        assert(ms[i].0 <= end <= bmo && block_dec(b.subrange(ms[i].0 as int, end)) is Some);
    }
}

/// Views keep the index length.
pub proof fn lemma_metas_vm_len(s: Seq<BlockMeta>)
    ensures
        metas_vm(s).len() == s.len(),
{
}

} // verus!
