//! The range-bounded, double-ended SST cursor. Two independent cursors — a
//! front one and a back one — each hold a block index and a block iterator;
//! the validity predicate keeps them from crossing, so that alternating
//! pulls from both ends enumerate every entry exactly once.

use vstd::prelude::*;
use crate::bytes_order::{lex_lt, lex_le, lemma_lex_trichotomy, lemma_lex_trans};
use crate::block::BlockIter;
use crate::error::Error;
use crate::kvstore::EntryForm;
use crate::sstable::{SsTable, count_upto, lemma_flat_index, lemma_flat_len,
    lemma_flat_coords, lemma_count_upto_mono};

verus! {

/// One end of a key range.
pub enum KeyBound {
    /// The bound itself belongs to the range.
    Included(Vec<u8>),
    /// Everything strictly beyond the bound belongs to the range.
    Excluded(Vec<u8>),
    /// No bound on this side.
    Unbounded,
}

/// The double-ended SST iterator.
pub struct SsTableIter {
    table: SsTable,
    front_iter: Option<(i32, BlockIter)>,
    back_iter: Option<(i32, BlockIter)>,
}

impl SsTableIter {
    /// The table's entries, in key order: what the iterator walks.
    pub closed spec fn entries(&self) -> Seq<EntryForm> {
        self.table.entries()
    }

    /// The per-block entries.
    pub closed spec fn bs(&self) -> Seq<Seq<EntryForm>> {
        self.table.spec_blocks()
    }

    /// How many entries the front has passed over, counting from the first.
    pub closed spec fn front_pos(&self) -> nat {
        match self.front_iter {
            None => 0,
            Some((bi, it)) => if bi >= self.bs().len() {
                self.entries().len()
            } else {
                count_upto(self.bs(), bi as int) + it.front_pos()
            },
        }
    }

    /// How many entries the back has passed over, counting from the last.
    pub closed spec fn back_pos(&self) -> nat {
        match self.back_iter {
            None => 0,
            Some((bi, it)) => if bi < 0 {
                self.entries().len()
            } else {
                (self.entries().len() - count_upto(self.bs(), bi + 1) + it.back_pos()) as nat
            },
        }
    }

    /// How many entries of its current block the front cursor has passed:
    /// what `front_entry` looks back at.
    pub closed spec fn front_cursor_passed(&self) -> nat {
        match self.front_iter {
            None => 0,
            Some((bi, it)) => it.front_pos(),
        }
    }

    /// How many entries of its current block the back cursor has passed:
    /// what `back_entry` looks back at.
    pub closed spec fn back_cursor_passed(&self) -> nat {
        match self.back_iter {
            None => 0,
            Some((bi, it)) => it.back_pos(),
        }
    }

    /// The iterator's invariant: the table is well formed and each cursor's
    /// block iterator walks the block its index names, untouched from the
    /// other end.
    pub closed spec fn wf(&self) -> bool {
        &&& self.table.wf()
        &&& match self.front_iter {
            None => true,
            Some((bi, it)) => {
                &&& 0 <= bi <= self.bs().len()
                &&& it.wf()
                &&& bi < self.bs().len() ==> it@ == self.bs()[bi as int] && it.back_pos() == 0
                &&& bi == self.bs().len() ==> it@ == self.bs()[bi - 1] && it.back_pos() == 0
                    && it.front_pos() == it@.len()
            },
        }
        &&& match self.back_iter {
            None => true,
            Some((bi, it)) => {
                &&& -1 <= bi < self.bs().len()
                &&& it.wf()
                &&& bi >= 0 ==> it@ == self.bs()[bi as int] && it.front_pos() == 0
                &&& bi == -1 ==> it@ == self.bs()[0] && it.front_pos() == 0
                    && it.back_pos() == it@.len()
            },
        }
    }

    /// Entry counts stay within the table.
    pub proof fn lemma_pos_bounds(&self)
        requires
            self.wf(),
        ensures
            self.front_pos() <= self.entries().len(),
            self.back_pos() <= self.entries().len(),
            self.entries().len() >= 1,
            count_upto(self.bs(), self.bs().len() as int) == self.entries().len(),
    {
        let bs = self.bs();
        self.table.lemma_wf_facts();
        lemma_flat_len(bs);
        lemma_flat_index(bs, 0, 0);
        if self.front_iter is Some {
            let (bi, it) = self.front_iter.unwrap();
            it.lemma_cursor_bounds();
            if 0 <= bi < bs.len() {
                lemma_count_upto_mono(bs, bi + 1, bs.len() as int);
                assert(count_upto(bs, bi + 1) == count_upto(bs, bi as int) + bs[bi as int].len());
            }
        }
        if self.back_iter is Some {
            let (bi, it) = self.back_iter.unwrap();
            it.lemma_cursor_bounds();
            if bi >= 0 {
                lemma_count_upto_mono(bs, 0, bi + 1);
                lemma_count_upto_mono(bs, bi + 1, bs.len() as int);
                assert(count_upto(bs, bi + 1) == count_upto(bs, bi as int) + bs[bi as int].len());
            }
        }
    }

    /// A fresh iterator over the whole table: both cursors unset.
    pub fn new(table: SsTable) -> (r: Result<SsTableIter, Error>)
        requires
            table.wf(),
        ensures
            r is Ok,
            r matches Ok(it) ==> {
                &&& it.wf()
                &&& it.entries() == table.entries()
                &&& it.front_pos() == 0
                &&& it.back_pos() == 0
                &&& it.front_cursor_passed() == 0
                &&& it.back_cursor_passed() == 0
            },
    {
        Ok(SsTableIter { table, front_iter: None, back_iter: None })
    }

    /// True while an entry remains that neither cursor has passed.
    pub fn is_valid(&self) -> (r: bool)
        requires
            self.wf(),
        ensures
            r == (self.front_pos() + self.back_pos() < self.entries().len()),
    {
        proof {
            self.lemma_pos_bounds();
            lemma_flat_len(self.bs());
        }
        let n = self.table.num_of_blocks();
        match (&self.front_iter, &self.back_iter) {
            (Some(f), Some(b)) => {
                let fi = f.0;
                let bi = b.0;
                proof {
                    self.lemma_valid_both(fi as int, bi as int);
                }
                if fi > bi {
                    false
                } else if fi < bi {
                    fi + 1 < bi || f.1.is_valid() || b.1.is_valid()
                } else {
                    let flen = f.1.len();
                    f.1.front_count() < flen && b.1.back_count() < flen - f.1.front_count()
                }
            },
            (Some(f), None) => {
                let fi = f.0;
                proof {
                    self.lemma_valid_front_only(fi as int);
                }
                ((fi as usize) < n - 1) || ((fi as usize) == n - 1 && f.1.is_valid())
            },
            (None, Some(b)) => {
                let bi = b.0;
                proof {
                    self.lemma_valid_back_only(bi as int);
                }
                bi > 0 || (bi == 0 && b.1.is_valid())
            },
            (None, None) => true,
        }
    }

    /// The crossing arithmetic when both cursors are set.
    proof fn lemma_valid_both(&self, fi: int, bi: int)
        requires
            self.wf(),
            self.front_iter matches Some(f) && f.0 == fi,
            self.back_iter matches Some(b) && b.0 == bi,
        ensures
            ({
                let bs = self.bs();
                let nn = self.entries().len();
                let f = self.front_iter.unwrap().1;
                let b = self.back_iter.unwrap().1;
                if fi > bi {
                    self.front_pos() + self.back_pos() >= nn
                } else if fi < bi {
                    (self.front_pos() + self.back_pos() < nn) == (fi + 1 < bi
                        || f.front_pos() < f@.len() || b.back_pos() < b@.len())
                } else {
                    (self.front_pos() + self.back_pos() < nn) == (f.front_pos()
                        + b.back_pos() < f@.len())
                }
            }),
    {
        let bs = self.bs();
        let nn = self.entries().len();
        let f = self.front_iter.unwrap().1;
        let b = self.back_iter.unwrap().1;
        self.table.lemma_wf_facts();
        f.lemma_cursor_bounds();
        b.lemma_cursor_bounds();
        lemma_flat_len(bs);
        self.lemma_pos_bounds();
        // fi == bs.len() means the front is exhausted; bi == -1, the back.
        if fi > bi {
            if bi >= 0 && fi <= bs.len() - 1 {
                lemma_count_upto_mono(bs, bi + 1, fi);
                assert(self.front_pos() >= count_upto(bs, fi));
            } else if bi >= 0 && fi == bs.len() {
                lemma_count_upto_mono(bs, bi + 1, bs.len() as int);
            } else {
                // bi == -1: the back has consumed everything.
            }
        } else if fi < bi {
            // Both indices are proper blocks: fi < bi < len and fi >= 0.
            assert(0 <= fi && bi < bs.len());
            assert(count_upto(bs, fi + 1) == count_upto(bs, fi) + bs[fi].len());
            assert(count_upto(bs, bi + 1) == count_upto(bs, bi) + bs[bi].len());
            lemma_count_upto_mono(bs, fi + 1, bi);
            lemma_count_upto_mono(bs, bi + 1, bs.len() as int);
            assert(self.front_pos() == count_upto(bs, fi) + f.front_pos());
            assert(self.back_pos() == nn - count_upto(bs, bi + 1) + b.back_pos());
            if fi + 1 < bi {
                assert(count_upto(bs, fi + 2) == count_upto(bs, fi + 1) + bs[fi + 1].len());
                lemma_count_upto_mono(bs, fi + 2, bi);
            }
        } else {
            assert(0 <= fi && fi < bs.len());
            assert(count_upto(bs, fi + 1) == count_upto(bs, fi) + bs[fi].len());
            lemma_count_upto_mono(bs, fi + 1, bs.len() as int);
            assert(self.front_pos() == count_upto(bs, fi) + f.front_pos());
            assert(self.back_pos() == nn - count_upto(bs, fi + 1) + b.back_pos());
        }
    }

    proof fn lemma_valid_front_only(&self, fi: int)
        requires
            self.wf(),
            self.front_iter matches Some(f) && f.0 == fi,
            self.back_iter is None,
        ensures
            ({
                let bs = self.bs();
                let f = self.front_iter.unwrap().1;
                (self.front_pos() < self.entries().len()) == (fi < bs.len() - 1
                    || (fi == bs.len() - 1 && f.front_pos() < f@.len()))
            }),
    {
        let bs = self.bs();
        let f = self.front_iter.unwrap().1;
        self.table.lemma_wf_facts();
        f.lemma_cursor_bounds();
        lemma_flat_len(bs);
        if fi < bs.len() {
            assert(count_upto(bs, fi + 1) == count_upto(bs, fi) + bs[fi].len());
            lemma_count_upto_mono(bs, fi + 1, bs.len() as int);
            if fi < bs.len() - 1 {
                assert(count_upto(bs, fi + 2) == count_upto(bs, fi + 1) + bs[fi + 1].len());
                lemma_count_upto_mono(bs, fi + 2, bs.len() as int);
            }
        }
    }

    proof fn lemma_valid_back_only(&self, bi: int)
        requires
            self.wf(),
            self.back_iter matches Some(b) && b.0 == bi,
            self.front_iter is None,
        ensures
            ({
                let bs = self.bs();
                let b = self.back_iter.unwrap().1;
                (self.back_pos() < self.entries().len()) == (bi > 0
                    || (bi == 0 && b.back_pos() < b@.len()))
            }),
    {
        let bs = self.bs();
        let b = self.back_iter.unwrap().1;
        self.table.lemma_wf_facts();
        b.lemma_cursor_bounds();
        lemma_flat_len(bs);
        if bi >= 0 {
            assert(count_upto(bs, bi + 1) == count_upto(bs, bi) + bs[bi].len());
            lemma_count_upto_mono(bs, bi + 1, bs.len() as int);
            assert(self.back_pos() == self.entries().len() - count_upto(bs, bi + 1)
                + b.back_pos());
            if bi > 0 {
                assert(count_upto(bs, 1) == count_upto(bs, 0) + bs[0].len());
                lemma_count_upto_mono(bs, 1, bi);
                lemma_count_upto_mono(bs, 0, bi as int);
            }
        }
    }

    /// Pulls the next entry from the front: the first entry neither cursor
    /// has passed, or nothing once the cursors meet.
    pub fn try_next(&mut self) -> (r: Result<Option<(Vec<u8>, Vec<u8>)>, Error>)
        requires
            old(self).wf(),
        ensures
            final(self).wf(),
            final(self).entries() == old(self).entries(),
            final(self).back_pos() == old(self).back_pos(),
            r is Ok,
            ({
                let valid = old(self).front_pos() + old(self).back_pos()
                    < old(self).entries().len();
                if valid {
                    &&& final(self).front_pos() == old(self).front_pos() + 1
                    &&& final(self).front_cursor_passed() > 0
                    &&& r matches Ok(Some(e)) && (e.0@, e.1@) == old(self).entries()[
                        old(self).front_pos() as int]
                } else {
                    &&& final(self).front_pos() == old(self).front_pos()
                    &&& r matches Ok(None)
                }
            }),
    {
        proof {
            self.table.lemma_wf_facts();
            self.lemma_pos_bounds();
            lemma_flat_len(self.bs());
        }
        if !self.is_valid() {
            return Ok(None);
        }
        let ghost oldf = self.front_pos();
        let n = self.table.num_of_blocks();
        let mut fo: Option<(i32, BlockIter)> = None;
        core::mem::swap(&mut fo, &mut self.front_iter);
        let mut cur: (i32, BlockIter);
        match fo {
            Some(p) => {
                cur = p;
            },
            None => {
                let block = match self.table.read_block_cached(0) {
                    Ok(b) => b,
                    Err(e) => {
                        return Err(e);
                    },
                };
                cur = (0, BlockIter::new(block));
            },
        }
        let ghost bs = self.bs();
        proof {
            cur.1.lemma_cursor_bounds();
            // The front is not exhausted: its block index is in range.
            if cur.0 >= bs.len() {
                assert(oldf == self.entries().len());
            }
            assert(0 <= cur.0 < bs.len());
            assert(oldf == count_upto(bs, cur.0 as int) + cur.1.front_pos());
        }
        let first = cur.1.next();
        let result: Option<(Vec<u8>, Vec<u8>)>;
        match first {
            Some(e) => {
                proof {
                    lemma_flat_index(bs, cur.0 as int, cur.1.front_pos() - 1);
                }
                result = Some(e);
            },
            None => {
                proof {
                    // The block is exhausted: the front position sits at the
                    // next block's first entry, which exists while valid.
                    assert(cur.1.front_pos() == bs[cur.0 as int].len());
                    assert(count_upto(bs, cur.0 + 1)
                        == count_upto(bs, cur.0 as int) + bs[cur.0 as int].len());
                    if cur.0 + 1 >= bs.len() {
                        lemma_count_upto_mono(bs, bs.len() as int, cur.0 + 1);
                        assert(oldf >= self.entries().len());
                        assert(false);
                    }
                }
                let idx2 = cur.0 + 1;
                let block = match self.table.read_block_cached(idx2 as usize) {
                    Ok(b) => b,
                    Err(e) => {
                        return Err(e);
                    },
                };
                let mut it2 = BlockIter::new(block);
                let e2 = it2.next();
                proof {
                    assert(bs[idx2 as int].len() >= 1);
                    lemma_flat_index(bs, idx2 as int, 0);
                }
                cur = (idx2, it2);
                result = match e2 {
                    Some(e) => Some(e),
                    None => None,
                };
                proof {
                    assert(result is Some);
                }
            },
        }
        self.front_iter = Some(cur);
        proof {
            assert(self.front_pos() == oldf + 1);
        }
        Ok(result)
    }

    /// Pulls the next entry from the back: the last entry neither cursor has
    /// passed, or nothing once the cursors meet.
    pub fn try_next_back(&mut self) -> (r: Result<Option<(Vec<u8>, Vec<u8>)>, Error>)
        requires
            old(self).wf(),
        ensures
            final(self).wf(),
            final(self).entries() == old(self).entries(),
            final(self).front_pos() == old(self).front_pos(),
            r is Ok,
            ({
                let valid = old(self).front_pos() + old(self).back_pos()
                    < old(self).entries().len();
                if valid {
                    &&& final(self).back_pos() == old(self).back_pos() + 1
                    &&& final(self).back_cursor_passed() > 0
                    &&& r matches Ok(Some(e)) && (e.0@, e.1@) == old(self).entries()[
                        old(self).entries().len() - 1 - old(self).back_pos()]
                } else {
                    &&& final(self).back_pos() == old(self).back_pos()
                    &&& r matches Ok(None)
                }
            }),
    {
        proof {
            self.table.lemma_wf_facts();
            self.lemma_pos_bounds();
            lemma_flat_len(self.bs());
        }
        if !self.is_valid() {
            return Ok(None);
        }
        let ghost oldb = self.back_pos();
        let n = self.table.num_of_blocks();
        let mut bo: Option<(i32, BlockIter)> = None;
        core::mem::swap(&mut bo, &mut self.back_iter);
        let mut cur: (i32, BlockIter);
        match bo {
            Some(p) => {
                cur = p;
            },
            None => {
                let block = match self.table.read_block_cached(n - 1) {
                    Ok(b) => b,
                    Err(e) => {
                        return Err(e);
                    },
                };
                cur = ((n - 1) as i32, BlockIter::new(block));
                proof {
                    assert(count_upto(self.bs(), self.bs().len() as int)
                        == count_upto(self.bs(), self.bs().len() - 1)
                            + self.bs()[self.bs().len() - 1].len());
                }
            },
        }
        let ghost bs = self.bs();
        proof {
            cur.1.lemma_cursor_bounds();
            if cur.0 < 0 {
                assert(oldb == self.entries().len());
            }
            assert(0 <= cur.0 < bs.len());
            assert(count_upto(bs, cur.0 + 1)
                == count_upto(bs, cur.0 as int) + bs[cur.0 as int].len());
            lemma_count_upto_mono(bs, cur.0 + 1, bs.len() as int);
            assert(oldb == self.entries().len() - count_upto(bs, cur.0 + 1)
                + cur.1.back_pos());
        }
        let last = cur.1.next_back();
        let result: Option<(Vec<u8>, Vec<u8>)>;
        match last {
            Some(e) => {
                proof {
                    lemma_flat_index(bs, cur.0 as int,
                        bs[cur.0 as int].len() - cur.1.back_pos());
                }
                result = Some(e);
            },
            None => {
                proof {
                    assert(cur.1.back_pos() == bs[cur.0 as int].len());
                    if cur.0 == 0 {
                        lemma_count_upto_mono(bs, 0, cur.0 as int);
                        assert(oldb >= self.entries().len());
                        assert(false);
                    }
                }
                let idx2 = cur.0 - 1;
                let block = match self.table.read_block_cached(idx2 as usize) {
                    Ok(b) => b,
                    Err(e) => {
                        return Err(e);
                    },
                };
                let mut it2 = BlockIter::new(block);
                let e2 = it2.next_back();
                proof {
                    assert(bs[idx2 as int].len() >= 1);
                    assert(count_upto(bs, idx2 + 1)
                        == count_upto(bs, idx2 as int) + bs[idx2 as int].len());
                    lemma_flat_index(bs, idx2 as int, bs[idx2 as int].len() - 1);
                }
                cur = (idx2, it2);
                result = match e2 {
                    Some(e) => Some(e),
                    None => None,
                };
                proof {
                    assert(result is Some);
                }
            },
        }
        self.back_iter = Some(cur);
        proof {
            assert(self.back_pos() == oldb + 1);
        }
        Ok(result)
    }

    /// The entry the front cursor last returned or passed: the entry just
    /// before the front position. Nothing while the cursor's current block
    /// has passed no entry (a fresh iterator, or a cursor sitting at a block
    /// boundary).
    pub fn front_entry(&self) -> (r: Option<(Vec<u8>, Vec<u8>)>)
        requires
            self.wf(),
        ensures
            r is Some <==> self.front_cursor_passed() > 0,
            match r {
                Some(e) => self.front_pos() >= 1 && (e.0@, e.1@) == self.entries()[
                    self.front_pos() - 1],
                None => true,
            },
    {
        proof {
            self.table.lemma_wf_facts();
            self.lemma_pos_bounds();
        }
        match &self.front_iter {
            Some(p) => {
                let e = p.1.front_entry();
                proof {
                    p.1.lemma_cursor_bounds();
                    if e is Some {
                        let bs = self.bs();
                        if p.0 < bs.len() {
                            lemma_flat_index(bs, p.0 as int, p.1.front_pos() - 1);
                        } else {
                            lemma_flat_index(bs, p.0 - 1, p.1.front_pos() - 1);
                            lemma_flat_len(bs);
                            assert(count_upto(bs, p.0 as int)
                                == count_upto(bs, p.0 - 1) + bs[p.0 - 1].len());
                        }
                    }
                }
                e
            },
            None => None,
        }
    }

    /// The entry the back cursor last returned or passed: the entry just
    /// after the back position. Nothing while the cursor's current block has
    /// passed no entry (a fresh iterator, or a cursor sitting at a block
    /// boundary).
    pub fn back_entry(&self) -> (r: Option<(Vec<u8>, Vec<u8>)>)
        requires
            self.wf(),
        ensures
            r is Some <==> self.back_cursor_passed() > 0,
            match r {
                Some(e) => self.back_pos() >= 1 && (e.0@, e.1@) == self.entries()[
                    self.entries().len() - self.back_pos()],
                None => true,
            },
    {
        proof {
            self.table.lemma_wf_facts();
            self.lemma_pos_bounds();
        }
        match &self.back_iter {
            Some(p) => {
                let e = p.1.back_entry();
                proof {
                    p.1.lemma_cursor_bounds();
                    if e is Some {
                        let bs = self.bs();
                        if p.0 >= 0 {
                            lemma_flat_index(bs, p.0 as int,
                                bs[p.0 as int].len() - p.1.back_pos());
                            assert(count_upto(bs, p.0 + 1)
                                == count_upto(bs, p.0 as int) + bs[p.0 as int].len());
                        } else {
                            lemma_flat_index(bs, 0, bs[0].len() - p.1.back_pos());
                            assert(count_upto(bs, 1) == count_upto(bs, 0) + bs[0].len());
                        }
                    }
                }
                e
            },
            None => None,
        }
    }
}

/// While the iterator is valid, the region the front has consumed and the
/// region the back has consumed leave at least one entry between them: no
/// entry is ever emitted from both ends.
pub proof fn lemma_bidirectional_non_overlap(it: &SsTableIter)
    requires
        it.wf(),
        it.front_pos() + it.back_pos() < it.entries().len(),
    ensures
        it.front_pos() < it.entries().len() - it.back_pos(),
{
}


/// The front cursor stands at a clean cut: everything before it is below
/// the key (strictly for an inclusive seek, weakly for an exclusive one),
/// and everything at or after it is not.
pub open spec fn front_cut(es: Seq<EntryForm>, fpos: nat, key: Seq<u8>, included: bool) -> bool {
    &&& fpos <= es.len()
    &&& forall|g: int| 0 <= g < fpos ==> (if included {
        lex_lt((#[trigger] es[g]).0, key)
    } else {
        lex_le((#[trigger] es[g]).0, key)
    })
    &&& forall|g: int| fpos <= g < es.len() ==> (if included {
        !lex_lt((#[trigger] es[g]).0, key)
    } else {
        lex_lt(key, (#[trigger] es[g]).0)
    })
}

/// The back cursor stands at a clean cut: everything it has passed is above
/// the key, and everything before the cut is not.
pub open spec fn back_cut(es: Seq<EntryForm>, bpos: nat, key: Seq<u8>, included: bool) -> bool {
    &&& bpos <= es.len()
    &&& forall|g: int| es.len() - bpos <= g < es.len() ==> (if included {
        lex_lt(key, (#[trigger] es[g]).0)
    } else {
        !lex_lt((#[trigger] es[g]).0, key)
    })
    &&& forall|g: int| 0 <= g < es.len() - bpos ==> (if included {
        !lex_lt(key, (#[trigger] es[g]).0)
    } else {
        lex_lt((#[trigger] es[g]).0, key)
    })
}

impl SsTableIter {
    /// Every block strictly before `t` holds only keys strictly below `key`,
    /// when block `t`'s first key is at or below it.
    proof fn lemma_blocks_below(&self, t: int, key: Seq<u8>)
        requires
            self.wf(),
            0 <= t < self.bs().len(),
            lex_le(self.table.spec_metas()[t].1, key),
        ensures
            forall|i: int, j: int| #![auto] 0 <= i < t && 0 <= j < self.bs()[i].len()
                ==> lex_lt(self.bs()[i][j].0, key),
    {
        let bs = self.bs();
        let ms = self.table.spec_metas();
        self.table.lemma_wf_facts();
        self.table.lemma_first_keys_sorted();
        assert forall|i: int, j: int| #![auto] 0 <= i < t && 0 <= j < bs[i].len()
            implies lex_lt(bs[i][j].0, key) by {
            self.table.lemma_block_key_bounds(i, j);
            // The entry is below the next block's first key, which is at or
            // below block `t`'s, which is at or below the key.
            if i + 1 < t {
                crate::bytes_order::lemma_lex_trans(bs[i][j].0, ms[i + 1].1, ms[t].1);
                crate::bytes_order::lemma_lex_lt_le_trans(bs[i][j].0, ms[t].1, key);
            } else {
                crate::bytes_order::lemma_lex_lt_le_trans(bs[i][j].0, ms[t].1, key);
            }
        }
    }

    /// Every block at or after `t` holds only keys strictly above `key`,
    /// when `key` is strictly below block `t`'s first key.
    proof fn lemma_blocks_above(&self, t: int, key: Seq<u8>)
        requires
            self.wf(),
            0 <= t < self.bs().len(),
            lex_lt(key, self.table.spec_metas()[t].1),
        ensures
            forall|i: int, j: int| #![auto] t <= i < self.bs().len()
                && 0 <= j < self.bs()[i].len() ==> lex_lt(key, self.bs()[i][j].0),
    {
        let bs = self.bs();
        let ms = self.table.spec_metas();
        self.table.lemma_wf_facts();
        self.table.lemma_first_keys_sorted();
        assert forall|i: int, j: int| #![auto] t <= i < bs.len() && 0 <= j < bs[i].len()
            implies lex_lt(key, bs[i][j].0) by {
            self.table.lemma_block_key_bounds(i, j);
            if i > t {
                crate::bytes_order::lemma_lex_trans(key, ms[t].1, ms[i].1);
                crate::bytes_order::lemma_lex_lt_le_trans(key, ms[i].1, bs[i][j].0);
            } else {
                crate::bytes_order::lemma_lex_lt_le_trans(key, ms[t].1, bs[i][j].0);
            }
        }
    }

    /// Assembles the global front cut from per-block facts about the cursor.
    proof fn lemma_assemble_front_cut(&self, key: Seq<u8>, included: bool)
        requires
            self.wf(),
            self.front_iter is Some,
            ({
                let (idx, it) = self.front_iter.unwrap();
                let bs = self.bs();
                &&& forall|i: int, j: int| #![auto] 0 <= i < idx && i < bs.len()
                    && 0 <= j < bs[i].len() ==> (if included {
                        lex_lt(bs[i][j].0, key)
                    } else {
                        lex_le(bs[i][j].0, key)
                    })
                &&& idx < bs.len() ==> forall|j: int| 0 <= j < it.front_pos()
                    ==> (if included {
                        lex_lt((#[trigger] bs[idx as int][j]).0, key)
                    } else {
                        lex_le((#[trigger] bs[idx as int][j]).0, key)
                    })
                &&& idx < bs.len() ==> forall|j: int| it.front_pos() <= j < bs[idx as int].len()
                    ==> (if included {
                        !lex_lt((#[trigger] bs[idx as int][j]).0, key)
                    } else {
                        lex_lt(key, (#[trigger] bs[idx as int][j]).0)
                    })
                &&& forall|i: int, j: int| #![auto] idx < i < bs.len()
                    && 0 <= j < bs[i].len() ==> (if included {
                        !lex_lt(bs[i][j].0, key)
                    } else {
                        lex_lt(key, bs[i][j].0)
                    })
            }),
        ensures
            front_cut(self.entries(), self.front_pos(), key, included),
    {
        let bs = self.bs();
        let es = self.entries();
        let (idx, it) = self.front_iter.unwrap();
        let fpos = self.front_pos();
        self.table.lemma_wf_facts();
        it.lemma_cursor_bounds();
        self.lemma_pos_bounds();
        lemma_flat_len(bs);
        assert forall|g: int| 0 <= g < fpos implies (if included {
            lex_lt((#[trigger] es[g]).0, key)
        } else {
            lex_le((#[trigger] es[g]).0, key)
        }) by {
            lemma_flat_coords(bs, g);
            let i = choose|i: int| 0 <= i < bs.len() && #[trigger] count_upto(bs, i) <= g
                && g < count_upto(bs, i) + bs[i].len();
            let j = g - count_upto(bs, i);
            lemma_flat_index(bs, i, j);
            if idx < bs.len() {
                assert(count_upto(bs, idx + 1)
                    == count_upto(bs, idx as int) + bs[idx as int].len());
                if i > idx {
                    lemma_count_upto_mono(bs, idx + 1, i);
                    assert(false);
                } else if i == idx {
                    assert(j < it.front_pos());
                }
            } else {
                if i >= idx {
                    assert(false);
                }
            }
        }
        assert forall|g: int| fpos <= g < es.len() implies (if included {
            !lex_lt((#[trigger] es[g]).0, key)
        } else {
            lex_lt(key, (#[trigger] es[g]).0)
        }) by {
            lemma_flat_coords(bs, g);
            let i = choose|i: int| 0 <= i < bs.len() && #[trigger] count_upto(bs, i) <= g
                && g < count_upto(bs, i) + bs[i].len();
            let j = g - count_upto(bs, i);
            lemma_flat_index(bs, i, j);
            assert(idx < bs.len());
            assert(count_upto(bs, idx + 1)
                == count_upto(bs, idx as int) + bs[idx as int].len());
            if i < idx {
                lemma_count_upto_mono(bs, i + 1, idx as int);
                assert(false);
            } else if i == idx {
                assert(j >= it.front_pos());
            }
        }
    }

    /// Assembles the global back cut from per-block facts about the cursor.
    proof fn lemma_assemble_back_cut(&self, key: Seq<u8>, included: bool)
        requires
            self.wf(),
            self.back_iter is Some,
            ({
                let (idx, it) = self.back_iter.unwrap();
                let bs = self.bs();
                &&& forall|i: int, j: int| #![auto] idx < i < bs.len()
                    && 0 <= j < bs[i].len() ==> (if included {
                        lex_lt(key, bs[i][j].0)
                    } else {
                        !lex_lt(bs[i][j].0, key)
                    })
                &&& idx >= 0 ==> forall|j: int|
                    bs[idx as int].len() - it.back_pos() <= j < bs[idx as int].len()
                    ==> (if included {
                        lex_lt(key, (#[trigger] bs[idx as int][j]).0)
                    } else {
                        !lex_lt((#[trigger] bs[idx as int][j]).0, key)
                    })
                &&& idx >= 0 ==> forall|j: int| 0 <= j < bs[idx as int].len() - it.back_pos()
                    ==> (if included {
                        !lex_lt(key, (#[trigger] bs[idx as int][j]).0)
                    } else {
                        lex_lt((#[trigger] bs[idx as int][j]).0, key)
                    })
                &&& forall|i: int, j: int| #![auto] 0 <= i < idx && i < bs.len()
                    && 0 <= j < bs[i].len() ==> (if included {
                        !lex_lt(key, bs[i][j].0)
                    } else {
                        lex_lt(bs[i][j].0, key)
                    })
            }),
        ensures
            back_cut(self.entries(), self.back_pos(), key, included),
    {
        let bs = self.bs();
        let es = self.entries();
        let (idx, it) = self.back_iter.unwrap();
        let bpos = self.back_pos();
        self.table.lemma_wf_facts();
        it.lemma_cursor_bounds();
        self.lemma_pos_bounds();
        lemma_flat_len(bs);
        assert forall|g: int| es.len() - bpos <= g < es.len() implies (if included {
            lex_lt(key, (#[trigger] es[g]).0)
        } else {
            !lex_lt((#[trigger] es[g]).0, key)
        }) by {
            lemma_flat_coords(bs, g);
            let i = choose|i: int| 0 <= i < bs.len() && #[trigger] count_upto(bs, i) <= g
                && g < count_upto(bs, i) + bs[i].len();
            let j = g - count_upto(bs, i);
            lemma_flat_index(bs, i, j);
            if idx >= 0 {
                assert(count_upto(bs, idx + 1)
                    == count_upto(bs, idx as int) + bs[idx as int].len());
                lemma_count_upto_mono(bs, idx + 1, bs.len() as int);
                if i < idx {
                    lemma_count_upto_mono(bs, i + 1, idx as int);
                    assert(false);
                } else if i == idx {
                    assert(j >= bs[idx as int].len() - it.back_pos());
                }
            } else {
                // idx == -1: everything has been passed from the back.
            }
        }
        assert forall|g: int| 0 <= g < es.len() - bpos implies (if included {
            !lex_lt(key, (#[trigger] es[g]).0)
        } else {
            lex_lt((#[trigger] es[g]).0, key)
        }) by {
            lemma_flat_coords(bs, g);
            let i = choose|i: int| 0 <= i < bs.len() && #[trigger] count_upto(bs, i) <= g
                && g < count_upto(bs, i) + bs[i].len();
            let j = g - count_upto(bs, i);
            lemma_flat_index(bs, i, j);
            assert(idx >= 0);
            assert(count_upto(bs, idx + 1)
                == count_upto(bs, idx as int) + bs[idx as int].len());
            lemma_count_upto_mono(bs, idx + 1, bs.len() as int);
            if i > idx {
                lemma_count_upto_mono(bs, idx + 1, i);
                assert(false);
            } else if i == idx {
                assert(j < bs[idx as int].len() - it.back_pos());
            }
        }
    }

    /// One block of the table is itself sorted.
    proof fn lemma_block_sorted(&self, i: int)
        requires
            self.wf(),
            0 <= i < self.bs().len(),
        ensures
            crate::kvstore::sorted_strict(self.bs()[i]),
    {
        let bs = self.bs();
        self.table.lemma_wf_facts();
        assert forall|x: int, y: int| 0 <= x < y < bs[i].len()
            implies lex_lt((#[trigger] bs[i][x]).0, (#[trigger] bs[i][y]).0) by {
            lemma_flat_index(bs, i, x);
            lemma_flat_index(bs, i, y);
        }
    }

    /// A fresh iterator whose front cursor is seeked to `key`.
    pub fn create_and_seek_to_key(table: SsTable, key: &[u8], included: bool)
        -> (r: Result<SsTableIter, Error>)
        requires
            table.wf(),
        ensures
            r is Ok,
            r matches Ok(it) ==> {
                &&& it.wf()
                &&& it.entries() == table.entries()
                &&& it.back_pos() == 0
                &&& front_cut(it.entries(), it.front_pos(), key@, included)
            },
    {
        let mut this = match Self::new(table) {
            Ok(t) => t,
            Err(e) => {
                return Err(e);
            },
        };
        match this.front_seek_to_key(key, included) {
            Ok(_) => Ok(this),
            Err(e) => Err(e),
        }
    }

    /// A fresh iterator whose back cursor is seeked to `key`.
    pub fn create_and_back_seek_to_key(table: SsTable, key: &[u8], included: bool)
        -> (r: Result<SsTableIter, Error>)
        requires
            table.wf(),
        ensures
            r is Ok,
            r matches Ok(it) ==> {
                &&& it.wf()
                &&& it.entries() == table.entries()
                &&& it.front_pos() == 0
                &&& back_cut(it.entries(), it.back_pos(), key@, included)
            },
    {
        let mut this = match Self::new(table) {
            Ok(t) => t,
            Err(e) => {
                return Err(e);
            },
        };
        match this.back_seek_to_key(key, included) {
            Ok(_) => Ok(this),
            Err(e) => Err(e),
        }
    }

    /// A fresh iterator over a key range: each bounded side is seeked to its
    /// bound, an unbounded side left at its natural end.
    pub fn create(table: SsTable, lower: KeyBound, upper: KeyBound)
        -> (r: Result<SsTableIter, Error>)
        requires
            table.wf(),
        ensures
            r is Ok,
            r matches Ok(it) ==> {
                &&& it.wf()
                &&& it.entries() == table.entries()
                &&& match lower {
                    KeyBound::Included(v) => front_cut(it.entries(), it.front_pos(), v@, true),
                    KeyBound::Excluded(v) => front_cut(it.entries(), it.front_pos(), v@, false),
                    KeyBound::Unbounded => it.front_pos() == 0,
                }
                &&& match upper {
                    KeyBound::Included(v) => back_cut(it.entries(), it.back_pos(), v@, true),
                    KeyBound::Excluded(v) => back_cut(it.entries(), it.back_pos(), v@, false),
                    KeyBound::Unbounded => it.back_pos() == 0,
                }
            },
    {
        let mut this = match Self::new(table) {
            Ok(t) => t,
            Err(e) => {
                return Err(e);
            },
        };
        match &lower {
            KeyBound::Included(v) => {
                match this.front_seek_to_key(v.as_slice(), true) {
                    Ok(_) => {},
                    Err(e) => {
                        return Err(e);
                    },
                }
            },
            KeyBound::Excluded(v) => {
                match this.front_seek_to_key(v.as_slice(), false) {
                    Ok(_) => {},
                    Err(e) => {
                        return Err(e);
                    },
                }
            },
            KeyBound::Unbounded => {},
        }
        match &upper {
            KeyBound::Included(v) => {
                match this.back_seek_to_key(v.as_slice(), true) {
                    Ok(_) => {},
                    Err(e) => {
                        return Err(e);
                    },
                }
            },
            KeyBound::Excluded(v) => {
                match this.back_seek_to_key(v.as_slice(), false) {
                    Ok(_) => {},
                    Err(e) => {
                        return Err(e);
                    },
                }
            },
            KeyBound::Unbounded => {},
        }
        Ok(this)
    }

    /// Moves the front cursor so the next forward pull yields the first
    /// entry at or past `key` (inclusive) or strictly past it (exclusive).
    pub fn front_seek_to_key(&mut self, key: &[u8], included: bool) -> (r: Result<(), Error>)
        requires
            old(self).wf(),
        ensures
            final(self).wf(),
            final(self).entries() == old(self).entries(),
            final(self).back_pos() == old(self).back_pos(),
            r is Ok,
            front_cut(final(self).entries(), final(self).front_pos(), key@, included),
    {
        proof {
            self.table.lemma_wf_facts();
            self.table.lemma_first_keys_sorted();
            lemma_flat_len(self.bs());
        }
        let n = self.table.num_of_blocks();
        let idx0 = self.table.front_find_block_idx(key);
        let start: usize = if idx0 >= 0 {
            idx0 as usize
        } else {
            0
        };
        let block = match self.table.read_block_cached(start) {
            Ok(b) => b,
            Err(e) => {
                return Err(e);
            },
        };
        proof {
            self.lemma_block_sorted(start as int);
        }
        let mut bit = crate::block::BlockIter::create_and_seek_to_key(block, key, included);
        let ghost bit1 = bit;
        let mut idx: i32 = if idx0 >= 0 {
            idx0
        } else {
            0
        };
        let moved = idx0 >= 0 && !bit.is_valid();
        if moved {
            idx = idx0 + 1;
            if (idx as usize) < n {
                let block2 = match self.table.read_block_cached(idx as usize) {
                    Ok(b) => b,
                    Err(e) => {
                        return Err(e);
                    },
                };
                proof {
                    self.lemma_block_sorted(idx as int);
                }
                bit = crate::block::BlockIter::create_and_seek_to_key(block2, key, included);
            }
        }
        self.front_iter = Some((idx, bit));
        proof {
            let bs = self.bs();
            let ms = self.table.spec_metas();
            bit1.lemma_cursor_bounds();
            self.table.lemma_first_keys_sorted();
            if idx0 >= 1 {
                self.lemma_blocks_below(idx0 as int, key@);
            }
            // Blocks strictly before the cursor's block sit below the key:
            // earlier blocks by the index's first keys, and — after a move —
            // the named block itself, whose seek passed every entry.
            assert forall|i: int, j: int| #![auto] 0 <= i < idx && i < bs.len()
                && 0 <= j < bs[i].len() implies (if included {
                    lex_lt(bs[i][j].0, key@)
                } else {
                    lex_le(bs[i][j].0, key@)
                }) by {
                if i == idx0 {
                    assert(moved);
                    assert(bit1.front_pos() == bs[idx0 as int].len());
                }
            }
            // Blocks strictly after it sit above the key, by the index.
            assert forall|i: int, j: int| #![auto] idx < i < bs.len() && 0 <= j < bs[i].len()
                implies (if included {
                    !lex_lt(bs[i][j].0, key@)
                } else {
                    lex_lt(key@, bs[i][j].0)
                }) by {
                self.table.lemma_block_key_bounds(i, j);
                assert(lex_lt(key@, ms[i].1));
                crate::bytes_order::lemma_lex_lt_le_trans(key@, ms[i].1, bs[i][j].0);
                if included {
                    crate::bytes_order::lemma_lex_trichotomy(bs[i][j].0, key@);
                }
            }
            self.lemma_assemble_front_cut(key@, included);
        }
        Ok(())
    }

    /// Moves the back cursor so the next backward pull yields the last entry
    /// at or before `key` (inclusive) or strictly before it (exclusive).
    pub fn back_seek_to_key(&mut self, key: &[u8], included: bool) -> (r: Result<(), Error>)
        requires
            old(self).wf(),
        ensures
            final(self).wf(),
            final(self).entries() == old(self).entries(),
            final(self).front_pos() == old(self).front_pos(),
            r is Ok,
            back_cut(final(self).entries(), final(self).back_pos(), key@, included),
    {
        proof {
            self.table.lemma_wf_facts();
            self.table.lemma_first_keys_sorted();
            lemma_flat_len(self.bs());
        }
        let n = self.table.num_of_blocks();
        let idx0 = self.table.back_find_block_idx(key);
        let start: usize = if (idx0 as usize) < n {
            idx0 as usize
        } else {
            n - 1
        };
        let block = match self.table.read_block_cached(start) {
            Ok(b) => b,
            Err(e) => {
                return Err(e);
            },
        };
        proof {
            self.lemma_block_sorted(start as int);
        }
        let mut bit = crate::block::BlockIter::create_and_back_seek_to_key(block, key, included);
        let ghost bit1 = bit;
        let mut idx: i32 = start as i32;
        let moved = (idx0 as usize) < n && !bit.is_valid();
        if moved {
            idx = idx0 - 1;
            if idx >= 0 {
                let block2 = match self.table.read_block_cached(idx as usize) {
                    Ok(b) => b,
                    Err(e) => {
                        return Err(e);
                    },
                };
                proof {
                    self.lemma_block_sorted(idx as int);
                }
                bit = crate::block::BlockIter::create_and_back_seek_to_key(
                    block2, key, included);
            }
        }
        self.back_iter = Some((idx, bit));
        proof {
            let bs = self.bs();
            let ms = self.table.spec_metas();
            let nlen = bs.len() as int;
            bit1.lemma_cursor_bounds();
            self.table.lemma_first_keys_sorted();
            // Blocks strictly after the cursor's block sit above the key:
            // their first keys exceed the named block's, which is at or
            // above the key; after a move, the named block itself was wholly
            // above, its seek having passed every entry.
            assert forall|i: int, j: int| #![auto] idx < i < nlen && 0 <= j < bs[i].len()
                implies (if included {
                    lex_lt(key@, bs[i][j].0)
                } else {
                    !lex_lt(bs[i][j].0, key@)
                }) by {
                self.table.lemma_block_key_bounds(i, j);
                if i > idx0 {
                    crate::bytes_order::lemma_lex_trichotomy(ms[idx0 as int].1, key@);
                    crate::bytes_order::lemma_lex_le_lt_trans(key@, ms[idx0 as int].1, ms[i].1);
                    crate::bytes_order::lemma_lex_lt_le_trans(key@, ms[i].1, bs[i][j].0);
                    if !included {
                        crate::bytes_order::lemma_lex_trichotomy(bs[i][j].0, key@);
                    }
                } else {
                    assert(moved && i == idx0);
                    assert(bit1.back_pos() == bs[idx0 as int].len());
                    if !included {
                        crate::bytes_order::lemma_lex_trichotomy(bs[i][j].0, key@);
                    }
                }
            }
            if idx >= 1 {
                // The cursor block's first key is at or below the key: either
                // the search placed it strictly below, or — in the named
                // block — the unpassed first entry witnesses it.
                assert(lex_le(ms[idx as int].1, key@)) by {
                    if !moved && idx == idx0 {
                        assert(bit.back_pos() < bs[idx0 as int].len());
                        assert(ms[idx0 as int].1 == bs[idx0 as int][0].0);
                        crate::bytes_order::lemma_lex_trichotomy(key@, ms[idx0 as int].1);
                    }
                }
                self.lemma_blocks_below(idx as int, key@);
                assert forall|i: int, j: int| #![auto] 0 <= i < idx && 0 <= j < bs[i].len()
                    implies (if included {
                        !lex_lt(key@, bs[i][j].0)
                    } else {
                        lex_lt(bs[i][j].0, key@)
                    }) by {
                    crate::bytes_order::lemma_lex_trichotomy(key@, bs[i][j].0);
                }
            }
            self.lemma_assemble_back_cut(key@, included);
        }
        Ok(())
    }

}

} // verus!
