//! The ordered byte-key/byte-value store underneath the MVCC layer: a
//! persistent mapping from byte strings to byte strings with lexicographic
//! key order, offering point get/set/delete, ascending range scans, and a
//! flush. This implementation holds the entries in memory, strictly sorted;
//! durability sits outside the core.

use vstd::prelude::*;
use vstd::slice::slice_to_vec;
use crate::bytes_order::{lex_lt, lex_le, bytes_lt, bytes_le, bytes_eq, lemma_lex_trichotomy, lemma_lex_trans};

verus! {

/// One key/value entry, in mathematical form.
pub type EntryForm = (Seq<u8>, Seq<u8>);

/// Looks a key up in an association sequence: the first entry with this key.
pub open spec fn seq_get(s: Seq<EntryForm>, k: Seq<u8>) -> Option<Seq<u8>>
    decreases s.len(),
{
    if s.len() == 0 {
        None
    } else if s[0].0 == k {
        Some(s[0].1)
    } else {
        seq_get(s.skip(1), k)
    }
}

/// Entries are strictly sorted by key.
pub open spec fn sorted_strict(s: Seq<EntryForm>) -> bool {
    forall|i: int, j: int| 0 <= i < j < s.len() ==> lex_lt(#[trigger] s[i].0, #[trigger] s[j].0)
}

/// A sorted sequence yields each of its entries.
pub proof fn lemma_seq_get_present(s: Seq<EntryForm>, i: int)
    requires
        sorted_strict(s),
        0 <= i < s.len(),
    ensures
        seq_get(s, s[i].0) == Some(s[i].1),
    decreases i,
{
    if i == 0 {
    } else {
        assert(lex_lt(s[0].0, s[i].0));
        lemma_lex_trichotomy(s[0].0, s[i].0);
        assert(forall|x: int, y: int| 0 <= x < y < s.skip(1).len()
            ==> lex_lt(#[trigger] s.skip(1)[x].0, #[trigger] s.skip(1)[y].0)) by {
            assert(forall|x: int| 0 <= x < s.skip(1).len() ==> s.skip(1)[x] == s[x + 1]);
        }
        lemma_seq_get_present(s.skip(1), i - 1);
        assert(s.skip(1)[i - 1] == s[i]);
    }
}

/// A key under which no entry stands is not found.
pub proof fn lemma_seq_get_absent(s: Seq<EntryForm>, k: Seq<u8>)
    requires
        forall|i: int| 0 <= i < s.len() ==> (#[trigger] s[i]).0 != k,
    ensures
        seq_get(s, k) is None,
    decreases s.len(),
{
    if s.len() > 0 {
        assert(forall|i: int| 0 <= i < s.skip(1).len() ==> #[trigger] s.skip(1)[i] == s[i + 1]);
        lemma_seq_get_absent(s.skip(1), k);
    }
}

/// A found value stands at some index.
pub proof fn lemma_seq_get_index(s: Seq<EntryForm>, k: Seq<u8>)
    requires
        seq_get(s, k) is Some,
    ensures
        exists|i: int| 0 <= i < s.len() && #[trigger] s[i] == (k, seq_get(s, k).unwrap()),
    decreases s.len(),
{
    if s.len() > 0 {
        if s[0].0 == k {
            assert(s[0] == (k, seq_get(s, k).unwrap()));
        } else {
            lemma_seq_get_index(s.skip(1), k);
            let i = choose|i: int| 0 <= i < s.skip(1).len()
                && #[trigger] s.skip(1)[i] == (k, seq_get(s.skip(1), k).unwrap());
            assert(s[i + 1] == (k, seq_get(s, k).unwrap()));
        }
    }
}

/// The ordered KV store, held in memory as a strictly sorted entry list.
pub struct MemStore {
    entries: Vec<(Vec<u8>, Vec<u8>)>,
}

impl View for MemStore {
    type V = Seq<EntryForm>;

    closed spec fn view(&self) -> Seq<EntryForm> {
        self.entries@.map_values(|p: (Vec<u8>, Vec<u8>)| (p.0@, p.1@))
    }
}

impl MemStore {
    /// The store's invariant: keys strictly ascend.
    pub open spec fn wf(&self) -> bool {
        sorted_strict(self@)
    }

    /// An empty store.
    pub fn new() -> (r: MemStore)
        ensures
            r.wf(),
            r@ == Seq::<EntryForm>::empty(),
    {
        let r = MemStore { entries: Vec::new() };
        proof {
            assert(r@ =~= Seq::<EntryForm>::empty());
        }
        r
    }

    /// Point read.
    pub fn get(&self, key: &[u8]) -> (r: Option<Vec<u8>>)
        ensures
            match r {
                Some(v) => seq_get(self@, key@) == Some(v@),
                None => seq_get(self@, key@) is None,
            },
    {
        let n = self.entries.len();
        let mut i: usize = 0;
        proof {
            assert(self@.skip(0) =~= self@);
        }
        while i < n
            invariant
                i <= n,
                n == self.entries.len(),
                seq_get(self@, key@) == seq_get(self@.skip(i as int), key@),
            decreases n - i,
        {
            proof {
                assert(self@.skip(i as int)[0] == self@[i as int]);
                assert(self@.skip(i as int).skip(1) =~= self@.skip(i + 1));
            }
            if bytes_eq(self.entries[i].0.as_slice(), key) {
                return Some(slice_to_vec(self.entries[i].1.as_slice()));
            }
            i = i + 1;
        }
        proof {
            assert(self@.skip(n as int).len() == 0);
        }
        None
    }

    /// Finds the first index whose key is not before `key`.
    fn find_pos(&self, key: &[u8]) -> (r: usize)
        requires
            self.wf(),
        ensures
            0 <= r <= self@.len(),
            forall|j: int| 0 <= j < r ==> lex_lt(#[trigger] self@[j].0, key@),
            forall|j: int| r <= j < self@.len() ==> !lex_lt(#[trigger] self@[j].0, key@),
    {
        let n = self.entries.len();
        let mut i: usize = 0;
        while i < n
            invariant
                i <= n,
                n == self.entries.len(),
                self.wf(),
                forall|j: int| 0 <= j < i ==> lex_lt(#[trigger] self@[j].0, key@),
            decreases n - i,
        {
            if !bytes_lt(self.entries[i].0.as_slice(), key) {
                proof {
                    assert forall|j: int| i <= j < self@.len()
                        implies !lex_lt(#[trigger] self@[j].0, key@) by {
                        if j > i {
                            assert(lex_lt(self@[i as int].0, self@[j].0));
                            lemma_lex_trichotomy(self@[j].0, key@);
                            if lex_lt(self@[j].0, key@) {
                                lemma_lex_trans(self@[i as int].0, self@[j].0, key@);
                            }
                        }
                    }
                }
                return i;
            }
            i = i + 1;
        }
        i
    }

    /// Writes `key` to `value`, inserting or replacing.
    pub fn set(&mut self, key: &[u8], value: &[u8])
        requires
            old(self).wf(),
        ensures
            final(self).wf(),
            seq_get(final(self)@, key@) == Some(value@),
            forall|k2: Seq<u8>| k2 != key@
                ==> #[trigger] seq_get(final(self)@, k2) == seq_get(old(self)@, k2),
    {
        let ghost olds = self@;
        let ghost eold = self.entries@;
        let pos = self.find_pos(key);
        let replace = pos < self.entries.len() && bytes_eq(self.entries[pos].0.as_slice(), key);
        if replace {
            self.entries.remove(pos);
            proof {
                eold.remove_ensures(pos as int);
            }
        }
        let ghost mids = self@;
        let ghost emid = self.entries@;
        proof {
            assert(forall|j: int| 0 <= j < pos ==> #[trigger] mids[j] == olds[j]);
            if replace {
                assert(forall|j: int| pos <= j < mids.len() ==> #[trigger] mids[j] == olds[j + 1]);
            }
            assert forall|x: int, y: int| 0 <= x < y < mids.len()
                implies lex_lt(#[trigger] mids[x].0, #[trigger] mids[y].0) by {
                if replace {
                    let xo: int = if x < pos { x } else { x + 1 };
                    let yo: int = if y < pos { y } else { y + 1 };
                    assert(mids[x] == olds[xo]);
                    assert(mids[y] == olds[yo]);
                } else {
                    assert(mids[x] == olds[x] && mids[y] == olds[y]);
                }
            }
        }
        let pair = (slice_to_vec(key), slice_to_vec(value));
        let ghost pairg = pair;
        self.entries.insert(pos, pair);
        proof {
            emid.insert_ensures(pos as int, pairg);
        }
        proof {
            let news = self@;
            assert(news[pos as int] == (key@, value@));
            assert(news.len() == mids.len() + 1);
            assert(forall|j: int| 0 <= j < pos ==> #[trigger] news[j] == mids[j]);
            assert(forall|j: int| pos < j < news.len() ==> #[trigger] news[j] == mids[j - 1]);
            assert(forall|j: int| 0 <= j < pos ==> #[trigger] news[j] == olds[j]);
            if replace {
                assert(forall|j: int| pos < j < news.len() ==> #[trigger] news[j] == olds[j]);
            } else {
                assert(forall|j: int| pos < j < news.len() ==> #[trigger] news[j] == olds[j - 1]);
            }
            // Entries at or after the insertion point come strictly after `key`.
            assert forall|j: int| pos < j < news.len()
                implies lex_lt(key@, #[trigger] news[j].0) by {
                let jo: int = if replace { j } else { j - 1 };
                assert(mids[j - 1] == olds[jo]);
                assert(!lex_lt(olds[jo].0, key@));
                lemma_lex_trichotomy(olds[jo].0, key@);
                if olds[jo].0 == key@ {
                    // Equality is ruled out: a replaced entry was removed, and
                    // otherwise the entry at `pos` is not equal to `key` and
                    // every later entry comes after it.
                    if replace {
                        assert(lex_lt(olds[pos as int].0, olds[jo].0));
                        lemma_lex_trichotomy(olds[pos as int].0, key@);
                    } else if jo == pos {
                        assert(olds[pos as int].0 != key@);
                    } else {
                        assert(lex_lt(olds[pos as int].0, olds[jo].0));
                        lemma_lex_trichotomy(olds[pos as int].0, key@);
                    }
                }
            }
            assert forall|x: int, y: int| 0 <= x < y < news.len()
                implies lex_lt(#[trigger] news[x].0, #[trigger] news[y].0) by {
                if y == pos {
                    assert(lex_lt(news[x].0, key@));
                } else if x == pos {
                    assert(lex_lt(key@, news[y].0));
                } else if x < pos && y > pos {
                    assert(lex_lt(news[x].0, key@));
                    assert(lex_lt(key@, news[y].0));
                    lemma_lex_trans(news[x].0, key@, news[y].0);
                } else if y < pos {
                    assert(news[x] == mids[x] && news[y] == mids[y]);
                } else {
                    assert(news[x] == mids[x - 1] && news[y] == mids[y - 1]);
                }
            }
            assert(final(self).wf());
            lemma_seq_get_present(news, pos as int);
            assert forall|k2: Seq<u8>| k2 != key@
                implies #[trigger] seq_get(news, k2) == seq_get(olds, k2) by {
                Self::lemma_get_unaffected(olds, news, pos as int, replace, key@, k2);
            }
        }
    }

    /// Removes `key` if present.
    pub fn delete(&mut self, key: &[u8])
        requires
            old(self).wf(),
        ensures
            final(self).wf(),
            seq_get(final(self)@, key@) is None,
            forall|k2: Seq<u8>| k2 != key@
                ==> #[trigger] seq_get(final(self)@, k2) == seq_get(old(self)@, k2),
    {
        let ghost olds = self@;
        let ghost eold = self.entries@;
        let pos = self.find_pos(key);
        let present = pos < self.entries.len() && bytes_eq(self.entries[pos].0.as_slice(), key);
        if present {
            self.entries.remove(pos);
            proof {
                eold.remove_ensures(pos as int);
            }
        }
        proof {
            let news = self@;
            if present {
                assert(forall|j: int| 0 <= j < pos ==> #[trigger] news[j] == olds[j]);
                assert(forall|j: int| pos <= j < news.len() ==> #[trigger] news[j] == olds[j + 1]);
            }
            assert forall|x: int, y: int| 0 <= x < y < news.len()
                implies lex_lt(#[trigger] news[x].0, #[trigger] news[y].0) by {
                if present {
                    let xo: int = if x < pos { x } else { x + 1 };
                    let yo: int = if y < pos { y } else { y + 1 };
                    assert(news[x] == olds[xo]);
                    assert(news[y] == olds[yo]);
                } else {
                    assert(news[x] == olds[x] && news[y] == olds[y]);
                }
            }
            if present {
                assert forall|i: int| 0 <= i < news.len()
                    implies (#[trigger] news[i]).0 != key@ by {
                    let io: int = if i < pos { i } else { i + 1 };
                    assert(news[i] == olds[io]);
                    if io < pos {
                        lemma_lex_trichotomy(olds[io].0, key@);
                    } else if io > pos {
                        assert(lex_lt(olds[pos as int].0, olds[io].0));
                        assert(olds[pos as int].0 == key@);
                        lemma_lex_trichotomy(key@, olds[io].0);
                    }
                }
                lemma_seq_get_absent(news, key@);
                assert forall|k2: Seq<u8>| k2 != key@
                    implies #[trigger] seq_get(news, k2) == seq_get(olds, k2) by {
                    Self::lemma_get_after_remove(olds, news, pos as int, k2);
                }
            } else {
                assert forall|i: int| 0 <= i < news.len()
                    implies (#[trigger] news[i]).0 != key@ by {
                    if i < pos {
                        lemma_lex_trichotomy(news[i].0, key@);
                    } else {
                        lemma_lex_trichotomy(news[i].0, key@);
                        if news[i].0 == key@ {
                            assert(i > pos ==> lex_lt(news[pos as int].0, news[i].0));
                            if i > pos {
                                lemma_lex_trichotomy(news[pos as int].0, key@);
                            }
                        }
                    }
                }
                lemma_seq_get_absent(news, key@);
            }
        }
    }

    /// All entries with `lo <= key < hi`, in ascending key order: every
    /// returned entry is an in-range entry of the store, and every in-range
    /// entry of the store is returned.
    #[verifier::rlimit(100)]
    pub fn scan(&self, lo: &[u8], hi: &[u8]) -> (r: Vec<(Vec<u8>, Vec<u8>)>)
        requires
            self.wf(),
        ensures
            forall|x: int, y: int| 0 <= x < y < r@.len()
                ==> lex_lt((#[trigger] r@[x]).0@, (#[trigger] r@[y]).0@),
            forall|x: int| 0 <= x < r@.len()
                ==> lex_le(lo@, (#[trigger] r@[x]).0@) && lex_lt(r@[x].0@, hi@),
            forall|x: int| 0 <= x < r@.len()
                ==> self@.contains(((#[trigger] r@[x]).0@, r@[x].1@)),
            forall|i: int| 0 <= i < self@.len() && lex_le(lo@, (#[trigger] self@[i]).0)
                && lex_lt(self@[i].0, hi@)
                ==> exists|x: int| 0 <= x < r@.len()
                    && (#[trigger] r@[x]).0@ == self@[i].0 && r@[x].1@ == self@[i].1,
    {
        let ghost pred = |p: EntryForm| lex_le(lo@, p.0) && lex_lt(p.0, hi@);
        let mut out: Vec<(Vec<u8>, Vec<u8>)> = Vec::new();
        let n = self.entries.len();
        let mut i: usize = 0;
        proof {
            assert(self@.subrange(0, 0) =~= Seq::<EntryForm>::empty());
            reveal(Seq::filter);
            assert(out@.map_values(|p: (Vec<u8>, Vec<u8>)| (p.0@, p.1@))
                =~= self@.subrange(0, 0).filter(pred));
        }
        while i < n
            invariant
                i <= n,
                n == self.entries.len(),
                self.wf(),
                out@.map_values(|p: (Vec<u8>, Vec<u8>)| (p.0@, p.1@))
                    == self@.subrange(0, i as int).filter(pred),
                pred == (|p: EntryForm| lex_le(lo@, p.0) && lex_lt(p.0, hi@)),
            decreases n - i,
        {
            let ghost prefix = self@.subrange(0, i as int);
            let ghost prefix2 = self@.subrange(0, i + 1);
            proof {
                assert(prefix2.drop_last() =~= prefix);
                assert(prefix2.last() == self@[i as int]);
                reveal(Seq::filter);
            }
            let included = bytes_le(lo, self.entries[i].0.as_slice())
                && bytes_lt(self.entries[i].0.as_slice(), hi);
            if included {
                let pair = (
                    slice_to_vec(self.entries[i].0.as_slice()),
                    slice_to_vec(self.entries[i].1.as_slice()),
                );
                out.push(pair);
                proof {
                    assert(out@.map_values(|p: (Vec<u8>, Vec<u8>)| (p.0@, p.1@))
                        =~= prefix2.filter(pred));
                }
            } else {
                proof {
                    assert(out@.map_values(|p: (Vec<u8>, Vec<u8>)| (p.0@, p.1@))
                        =~= prefix2.filter(pred));
                }
            }
            i = i + 1;
        }
        proof {
            assert(self@.subrange(0, n as int) =~= self@);
            Self::lemma_scan_post(self@, out@, lo@, hi@, pred);
        }
        out
    }

    /// The scan postconditions, read off the filter characterization.
    #[verifier::rlimit(100)]
    #[verifier::spinoff_prover]
    proof fn lemma_scan_post(
        s: Seq<EntryForm>,
        outv: Seq<(Vec<u8>, Vec<u8>)>,
        lo: Seq<u8>,
        hi: Seq<u8>,
        pred: spec_fn(EntryForm) -> bool,
    )
        requires
            sorted_strict(s),
            pred == (|p: EntryForm| lex_le(lo, p.0) && lex_lt(p.0, hi)),
            outv.map_values(|p: (Vec<u8>, Vec<u8>)| (p.0@, p.1@)) == s.filter(pred),
        ensures
            forall|x: int, y: int| 0 <= x < y < outv.len()
                ==> lex_lt((#[trigger] outv[x]).0@, (#[trigger] outv[y]).0@),
            forall|x: int| 0 <= x < outv.len()
                ==> lex_le(lo, (#[trigger] outv[x]).0@) && lex_lt(outv[x].0@, hi),
            forall|x: int| 0 <= x < outv.len()
                ==> s.contains(((#[trigger] outv[x]).0@, outv[x].1@)),
            forall|i: int| 0 <= i < s.len() && lex_le(lo, (#[trigger] s[i]).0)
                && lex_lt(s[i].0, hi)
                ==> exists|x: int| 0 <= x < outv.len()
                    && (#[trigger] outv[x]).0@ == s[i].0 && outv[x].1@ == s[i].1,
    {
        let rv = outv.map_values(|p: (Vec<u8>, Vec<u8>)| (p.0@, p.1@));
        assert(forall|x: int| 0 <= x < rv.len()
            ==> #[trigger] rv[x] == ((#[trigger] outv[x]).0@, outv[x].1@));
        Self::lemma_filter_carries(s, pred);
        Self::lemma_filter_keeps_sorted(s, pred);
        assert forall|x: int, y: int| 0 <= x < y < outv.len()
            implies lex_lt((#[trigger] outv[x]).0@, (#[trigger] outv[y]).0@) by {
            assert(rv[x].0 == outv[x].0@);
            assert(rv[y].0 == outv[y].0@);
            assert(lex_lt(rv[x].0, rv[y].0));
        }
        assert forall|x: int| 0 <= x < outv.len()
            implies lex_le(lo, (#[trigger] outv[x]).0@) && lex_lt(outv[x].0@, hi) by {
            Seq::lemma_filter_pred(s, pred, x);
            assert(pred(rv[x]));
        }
        assert forall|x: int| 0 <= x < outv.len()
            implies s.contains(((#[trigger] outv[x]).0@, outv[x].1@)) by {
            assert(rv[x] == s.filter(pred)[x]);
            let i = choose|i: int| 0 <= i < s.len()
                && #[trigger] s[i] == #[trigger] s.filter(pred)[x];
            assert(s[i] == rv[x]);
            assert(rv[x] == (outv[x].0@, outv[x].1@));
            assert(s[i] == (outv[x].0@, outv[x].1@));
        }
        assert forall|i: int| 0 <= i < s.len() && lex_le(lo, (#[trigger] s[i]).0)
            && lex_lt(s[i].0, hi)
            implies exists|x: int| 0 <= x < outv.len()
                && (#[trigger] outv[x]).0@ == s[i].0 && outv[x].1@ == s[i].1 by {
            assert(pred(s[i]));
            Seq::lemma_filter_contains(s, pred, i);
            assert(rv.contains(s[i]));
            let x = choose|x: int| 0 <= x < rv.len() && #[trigger] rv[x] == s[i];
            assert(outv[x].0@ == s[i].0 && outv[x].1@ == s[i].1);
        }
    }

    /// Every filtered entry stands somewhere in the original sequence.
    proof fn lemma_filter_carries(s: Seq<EntryForm>, pred: spec_fn(EntryForm) -> bool)
        ensures
            forall|x: int| 0 <= x < s.filter(pred).len()
                ==> exists|i: int| 0 <= i < s.len()
                    && #[trigger] s[i] == #[trigger] s.filter(pred)[x],
        decreases s.len(),
    {
        reveal(Seq::filter);
        if s.len() > 0 {
            let d = s.drop_last();
            Self::lemma_filter_carries(d, pred);
            assert forall|x: int| 0 <= x < s.filter(pred).len()
                implies exists|i: int| 0 <= i < s.len()
                    && #[trigger] s[i] == #[trigger] s.filter(pred)[x] by {
                if x < d.filter(pred).len() {
                    let i = choose|i: int| 0 <= i < d.len() && #[trigger] d[i]
                        == d.filter(pred)[x];
                    assert(s[i] == s.filter(pred)[x]);
                } else {
                    assert(s.filter(pred)[x] == s.last());
                    assert(s[s.len() - 1] == s.filter(pred)[x]);
                }
            }
        }
    }

    /// Filtering keeps the strict key order.
    proof fn lemma_filter_keeps_sorted(s: Seq<EntryForm>, pred: spec_fn(EntryForm) -> bool)
        requires
            sorted_strict(s),
        ensures
            sorted_strict(s.filter(pred)),
        decreases s.len(),
    {
        reveal(Seq::filter);
        if s.len() > 0 {
            let d = s.drop_last();
            assert(forall|i: int| 0 <= i < d.len() ==> #[trigger] d[i] == s[i]);
            Self::lemma_filter_keeps_sorted(d, pred);
            Self::lemma_filter_carries(d, pred);
            let f = s.filter(pred);
            assert forall|x: int, y: int| 0 <= x < y < f.len()
                implies lex_lt((#[trigger] f[x]).0, (#[trigger] f[y]).0) by {
                if y < d.filter(pred).len() {
                } else {
                    assert(f[y] == s.last());
                    let i = choose|i: int| 0 <= i < d.len() && #[trigger] d[i]
                        == d.filter(pred)[x];
                    assert(lex_lt(s[i].0, s[s.len() - 1].0));
                }
            }
        }
    }

    /// Durably persists prior writes. The in-memory core has nothing further
    /// to do; persistence is layered outside.
    pub fn flush(&self) -> (r: Result<(), crate::error::Error>)
        ensures
            r is Ok,
    {
        Ok(())
    }

    /// How a lookup relates to the list before and after an insertion (with,
    /// where `replace` holds, a removal of the equal key at the same place).
    proof fn lemma_get_unaffected(
        olds: Seq<EntryForm>,
        news: Seq<EntryForm>,
        pos: int,
        replace: bool,
        k: Seq<u8>,
        k2: Seq<u8>,
    )
        requires
            sorted_strict(olds),
            sorted_strict(news),
            k2 != k,
            0 <= pos,
            replace ==> pos < olds.len() && olds[pos].0 == k,
            !replace ==> pos <= olds.len(),
            news.len() == (if replace { olds.len() as int } else { olds.len() as int + 1 }),
            pos < news.len() && news[pos].0 == k,
            forall|j: int| 0 <= j < pos ==> #[trigger] news[j] == olds[j],
            replace ==> forall|j: int| pos < j < news.len() ==> #[trigger] news[j] == olds[j],
            !replace ==> forall|j: int| pos < j < news.len() ==> #[trigger] news[j] == olds[j - 1],
        ensures
            seq_get(news, k2) == seq_get(olds, k2),
    {
        if seq_get(olds, k2) is Some {
            lemma_seq_get_index(olds, k2);
            let i = choose|i: int| 0 <= i < olds.len()
                && #[trigger] olds[i] == (k2, seq_get(olds, k2).unwrap());
            assert(olds[i].0 != k);
            let jn: int = if i < pos { i } else if replace { i } else { i + 1 };
            assert(i != pos || !replace);
            assert(news[jn] == olds[i]);
            lemma_seq_get_present(news, jn);
            lemma_seq_get_present(olds, i);
        } else {
            lemma_seq_get_absent_converse(olds, k2);
            assert forall|j: int| 0 <= j < news.len() implies (#[trigger] news[j]).0 != k2 by {
                if j != pos {
                    let io: int = if j < pos { j } else if replace { j } else { j - 1 };
                    assert(news[j] == olds[io]);
                }
            }
            lemma_seq_get_absent(news, k2);
        }
    }

    proof fn lemma_get_after_remove(
        olds: Seq<EntryForm>,
        news: Seq<EntryForm>,
        pos: int,
        k2: Seq<u8>,
    )
        requires
            sorted_strict(olds),
            sorted_strict(news),
            0 <= pos < olds.len(),
            news.len() == olds.len() - 1,
            forall|j: int| 0 <= j < pos ==> #[trigger] news[j] == olds[j],
            forall|j: int| pos <= j < news.len() ==> #[trigger] news[j] == olds[j + 1],
            olds[pos].0 != k2,
        ensures
            seq_get(news, k2) == seq_get(olds, k2),
    {
        if seq_get(olds, k2) is Some {
            lemma_seq_get_index(olds, k2);
            let i = choose|i: int| 0 <= i < olds.len()
                && #[trigger] olds[i] == (k2, seq_get(olds, k2).unwrap());
            assert(i != pos);
            let im: int = if i < pos { i } else { i - 1 };
            assert(news[im] == olds[i]);
            lemma_seq_get_present(news, im);
            lemma_seq_get_present(olds, i);
        } else {
            lemma_seq_get_absent_converse(olds, k2);
            assert forall|j: int| 0 <= j < news.len() implies (#[trigger] news[j]).0 != k2 by {
                let io: int = if j < pos { j } else { j + 1 };
                assert(news[j] == olds[io]);
            }
            lemma_seq_get_absent(news, k2);
        }
    }
}

/// A missing key has no entry at any index.
pub proof fn lemma_seq_get_absent_converse(s: Seq<EntryForm>, k: Seq<u8>)
    requires
        seq_get(s, k) is None,
    ensures
        forall|i: int| 0 <= i < s.len() ==> (#[trigger] s[i]).0 != k,
    decreases s.len(),
{
    if s.len() > 0 {
        lemma_seq_get_absent_converse(s.skip(1), k);
        assert forall|i: int| 0 <= i < s.len() implies (#[trigger] s[i]).0 != k by {
            if i > 0 {
                assert(s.skip(1)[i - 1] == s[i]);
            }
        }
    }
}

} // verus!
