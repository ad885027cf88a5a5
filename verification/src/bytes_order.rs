//! Lexicographic order on byte strings: the order of the ordered KV store,
//! of SST keys, and of encoded MVCC keys.

use vstd::prelude::*;

verus! {

/// Strict lexicographic order on byte sequences: `a` comes before `b`.
pub open spec fn lex_lt(a: Seq<u8>, b: Seq<u8>) -> bool
    decreases a.len(),
{
    if b.len() == 0 {
        false
    } else if a.len() == 0 {
        true
    } else if a[0] < b[0] {
        true
    } else if a[0] > b[0] {
        false
    } else {
        lex_lt(a.skip(1), b.skip(1))
    }
}

/// Non-strict lexicographic order.
pub open spec fn lex_le(a: Seq<u8>, b: Seq<u8>) -> bool {
    lex_lt(a, b) || a == b
}

/// The order is irreflexive.
pub proof fn lemma_lex_irrefl(a: Seq<u8>)
    ensures
        !lex_lt(a, a),
    decreases a.len(),
{
    if a.len() > 0 {
        lemma_lex_irrefl(a.skip(1));
    }
}

/// Exactly one of `a < b`, `a == b`, `b < a` holds.
pub proof fn lemma_lex_trichotomy(a: Seq<u8>, b: Seq<u8>)
    ensures
        lex_lt(a, b) || a == b || lex_lt(b, a),
        lex_lt(a, b) ==> a != b && !lex_lt(b, a),
        a == b ==> !lex_lt(a, b) && !lex_lt(b, a),
    decreases a.len(),
{
    lemma_lex_irrefl(a);
    lemma_lex_irrefl(b);
    if a.len() > 0 && b.len() > 0 && a[0] == b[0] {
        lemma_lex_trichotomy(a.skip(1), b.skip(1));
        if a.skip(1) == b.skip(1) {
            assert forall|j: int| 0 <= j < a.len() implies a[j] == b[j] by {
                if j >= 1 {
                    assert(a[j] == a.skip(1)[j - 1]);
                    assert(b[j] == b.skip(1)[j - 1]);
                }
            }
            assert(a =~= b);
        }
        if a == b {
            assert(a.skip(1) =~= b.skip(1));
        }
    } else if a.len() == 0 && b.len() == 0 {
        assert(a =~= b);
    }
}

/// The order is transitive.
pub proof fn lemma_lex_trans(a: Seq<u8>, b: Seq<u8>, c: Seq<u8>)
    requires
        lex_lt(a, b),
        lex_lt(b, c),
    ensures
        lex_lt(a, c),
    decreases a.len(),
{
    if a.len() > 0 && b.len() > 0 && c.len() > 0 && a[0] == b[0] && b[0] == c[0] {
        lemma_lex_trans(a.skip(1), b.skip(1), c.skip(1));
    }
}

/// Dropping a shared leading segment does not change the comparison.
pub proof fn lemma_lex_common_prefix(p: Seq<u8>, s: Seq<u8>, t: Seq<u8>)
    ensures
        lex_lt(p + s, p + t) == lex_lt(s, t),
    decreases p.len(),
{
    if p.len() == 0 {
        assert(p + s =~= s);
        assert(p + t =~= t);
    } else {
        assert((p + s).skip(1) =~= p.skip(1) + s);
        assert((p + t).skip(1) =~= p.skip(1) + t);
        lemma_lex_common_prefix(p.skip(1), s, t);
        assert((p + s)[0] == (p + t)[0]);
        assert((p + t).len() > 0);
    }
}

/// Comparing equal-length strings with arbitrary suffixes: the heads decide,
/// and equal heads fall through to the suffixes.
pub proof fn lemma_lex_append(a: Seq<u8>, b: Seq<u8>, s: Seq<u8>, t: Seq<u8>)
    requires
        a.len() == b.len(),
    ensures
        lex_lt(a + s, b + t) == (lex_lt(a, b) || (a == b && lex_lt(s, t))),
    decreases a.len(),
{
    if a.len() == 0 {
        assert(a =~= b);
        assert(a + s =~= s);
        assert(b + t =~= t);
        lemma_lex_irrefl(a);
    } else {
        assert((a + s)[0] == a[0]);
        assert((b + t)[0] == b[0]);
        assert((a + s).skip(1) =~= a.skip(1) + s);
        assert((b + t).skip(1) =~= b.skip(1) + t);
        lemma_lex_append(a.skip(1), b.skip(1), s, t);
        if a[0] == b[0] {
            if a.skip(1) == b.skip(1) {
                assert forall|j: int| 0 <= j < a.len() implies a[j] == b[j] by {
                    if j >= 1 {
                        assert(a[j] == a.skip(1)[j - 1]);
                        assert(b[j] == b.skip(1)[j - 1]);
                    }
                }
                assert(a =~= b);
            }
            if a == b {
                assert(a.skip(1) =~= b.skip(1));
            }
        } else {
            if a == b {
                assert(false);
            }
        }
    }
}

/// Mixed transitivity: non-strict then strict.
pub proof fn lemma_lex_le_lt_trans(a: Seq<u8>, b: Seq<u8>, c: Seq<u8>)
    requires
        lex_le(a, b),
        lex_lt(b, c),
    ensures
        lex_lt(a, c),
{
    if a != b {
        lemma_lex_trans(a, b, c);
    }
}

/// Mixed transitivity: strict then non-strict.
pub proof fn lemma_lex_lt_le_trans(a: Seq<u8>, b: Seq<u8>, c: Seq<u8>)
    requires
        lex_lt(a, b),
        lex_le(b, c),
    ensures
        lex_lt(a, c),
{
    if b != c {
        lemma_lex_trans(a, b, c);
    }
}

/// Exec comparison: `a` strictly before `b` in lexicographic order.
pub fn bytes_lt(a: &[u8], b: &[u8]) -> (r: bool)
    ensures
        r == lex_lt(a@, b@),
{
    let mut i: usize = 0;
    proof {
        assert(a@.skip(0) =~= a@);
        assert(b@.skip(0) =~= b@);
    }
    loop
        invariant
            i <= a.len(),
            i <= b.len(),
            lex_lt(a@, b@) == lex_lt(a@.skip(i as int), b@.skip(i as int)),
        decreases a.len() - i,
    {
        if i == b.len() {
            assert(b@.skip(i as int).len() == 0);
            return false;
        }
        if i == a.len() {
            assert(a@.skip(i as int).len() == 0);
            return true;
        }
        let x = a[i];
        let y = b[i];
        assert(a@.skip(i as int)[0] == x);
        assert(b@.skip(i as int)[0] == y);
        if x < y {
            return true;
        }
        if x > y {
            return false;
        }
        assert(a@.skip(i as int).skip(1) =~= a@.skip(i + 1));
        assert(b@.skip(i as int).skip(1) =~= b@.skip(i + 1));
        i = i + 1;
    }
}

/// Exec comparison: `a` before `b` or equal to it.
pub fn bytes_le(a: &[u8], b: &[u8]) -> (r: bool)
    ensures
        r == lex_le(a@, b@),
{
    let lt = bytes_lt(b, a);
    proof {
        lemma_lex_trichotomy(a@, b@);
    }
    !lt
}

/// Exec equality of byte strings.
pub fn bytes_eq(a: &[u8], b: &[u8]) -> (r: bool)
    ensures
        r == (a@ == b@),
{
    if a.len() != b.len() {
        return false;
    }
    let mut i: usize = 0;
    while i < a.len()
        invariant
            i <= a.len(),
            a.len() == b.len(),
            forall|j: int| 0 <= j < i ==> a@[j] == b@[j],
        decreases a.len() - i,
    {
        if a[i] != b[i] {
            return false;
        }
        i = i + 1;
    }
    proof {
        assert(a@ =~= b@);
    }
    true
}

} // verus!
