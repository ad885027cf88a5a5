//! Byte-level encodings shared by the MVCC key codec and the SST format:
//! big-endian unsigned integers of a fixed width, and a length-delimited
//! byte-string encoding that preserves lexicographic order (each zero byte is
//! escaped as `00 ff`; the string is terminated by `00 00`).

use vstd::prelude::*;
use crate::bytes_order::lex_lt;

verus! {

/// 256 to the power `n`.
pub open spec fn pow256(n: nat) -> nat
    decreases n,
{
    if n == 0 {
        1
    } else {
        256 * pow256((n - 1) as nat)
    }
}

/// The `n` big-endian base-256 digits of `x`.
pub open spec fn be_bytes(x: nat, n: nat) -> Seq<u8>
    decreases n,
{
    if n == 0 {
        Seq::empty()
    } else {
        seq![(x / pow256((n - 1) as nat)) as u8] + be_bytes(x % pow256((n - 1) as nat), (n - 1) as nat)
    }
}

/// The value of a big-endian digit string.
pub open spec fn be_val(s: Seq<u8>) -> nat
    decreases s.len(),
{
    if s.len() == 0 {
        0
    } else {
        (s[0] * pow256((s.len() - 1) as nat) + be_val(s.skip(1))) as nat
    }
}

pub proof fn lemma_pow256_pos(n: nat)
    ensures
        pow256(n) >= 1,
    decreases n,
{
    if n > 0 {
        lemma_pow256_pos((n - 1) as nat);
    }
}

pub proof fn lemma_be_bytes_len(x: nat, n: nat)
    requires
        x < pow256(n),
    ensures
        be_bytes(x, n).len() == n,
    decreases n,
{
    if n > 0 {
        let p = pow256((n - 1) as nat);
        lemma_pow256_pos((n - 1) as nat);
        vstd::arithmetic::div_mod::lemma_mod_division_less_than_divisor(x as int, p as int);
        lemma_be_bytes_len(x % p, (n - 1) as nat);
    }
}

pub proof fn lemma_be_val_bound(s: Seq<u8>)
    ensures
        be_val(s) < pow256(s.len()),
    decreases s.len(),
{
    if s.len() == 0 {
    } else {
        let p = pow256((s.len() - 1) as nat);
        lemma_be_val_bound(s.skip(1));
        lemma_pow256_pos((s.len() - 1) as nat);
        assert(s[0] <= 255);
        assert(s[0] * p <= 255 * p) by (nonlinear_arith)
            requires s[0] <= 255, p >= 0;
        assert(255 * p + p == 256 * p);
    }
}

/// Reading back the digits of `x` yields `x`.
pub proof fn lemma_be_bytes_val(x: nat, n: nat)
    requires
        x < pow256(n),
    ensures
        be_val(be_bytes(x, n)) == x,
    decreases n,
{
    if n == 0 {
    } else {
        let p = pow256((n - 1) as nat);
        lemma_pow256_pos((n - 1) as nat);
        let hi = x / p;
        let lo = x % p;
        vstd::arithmetic::div_mod::lemma_fundamental_div_mod(x as int, p as int);
        assert(hi < 256) by (nonlinear_arith)
            requires x < 256 * p, p >= 1, hi == x / p;
        lemma_be_bytes_val(lo, (n - 1) as nat);
        lemma_be_bytes_len(lo, (n - 1) as nat);
        let s = be_bytes(x, n);
        assert(s.skip(1) =~= be_bytes(lo, (n - 1) as nat));
        assert(s[0] == hi as u8);
        assert(be_val(s) == hi * p + lo);
    }
}

/// Digits determine the value: encoding the value of `s` gives back `s`.
pub proof fn lemma_be_val_bytes(s: Seq<u8>)
    ensures
        be_bytes(be_val(s), s.len()) == s,
    decreases s.len(),
{
    if s.len() == 0 {
        assert(be_bytes(be_val(s), 0) =~= s);
    } else {
        let n = s.len();
        let p = pow256((n - 1) as nat);
        lemma_pow256_pos((n - 1) as nat);
        let v = be_val(s);
        let rest = be_val(s.skip(1));
        lemma_be_val_bound(s.skip(1));
        assert(v == s[0] * p + rest);
        vstd::arithmetic::div_mod::lemma_fundamental_div_mod_converse(
            v as int, p as int, s[0] as int, rest as int);
        assert(v / p == s[0]);
        assert(v % p == rest);
        lemma_be_val_bytes(s.skip(1));
        assert(be_bytes(v, n) =~= s);
    }
}

/// Big-endian digits compare as the values do.
pub proof fn lemma_be_bytes_order(x: nat, y: nat, n: nat)
    requires
        x < pow256(n),
        y < pow256(n),
    ensures
        lex_lt(be_bytes(x, n), be_bytes(y, n)) == (x < y),
    decreases n,
{
    if n == 0 {
    } else {
        let p = pow256((n - 1) as nat);
        lemma_pow256_pos((n - 1) as nat);
        let hx = x / p;
        let hy = y / p;
        vstd::arithmetic::div_mod::lemma_fundamental_div_mod(x as int, p as int);
        vstd::arithmetic::div_mod::lemma_fundamental_div_mod(y as int, p as int);
        assert(hx < 256 && hy < 256) by (nonlinear_arith)
            requires x < 256 * p, y < 256 * p, p >= 1, hx == x / p, hy == y / p;
        let sx = be_bytes(x, n);
        let sy = be_bytes(y, n);
        lemma_be_bytes_len(x % p, (n - 1) as nat);
        lemma_be_bytes_len(y % p, (n - 1) as nat);
        assert(sx.len() == n && sy.len() == n) by {
            lemma_be_bytes_len(x, n);
            lemma_be_bytes_len(y, n);
        }
        assert(sx[0] == hx as u8 && sy[0] == hy as u8);
        assert(sx.skip(1) =~= be_bytes(x % p, (n - 1) as nat));
        assert(sy.skip(1) =~= be_bytes(y % p, (n - 1) as nat));
        if hx < hy {
            assert(x < y) by (nonlinear_arith)
                requires x == p * hx + (x % p), y == p * hy + (y % p),
                    hx < hy, 0 <= x % p < p, 0 <= y % p < p;
        } else if hx > hy {
            assert(y < x) by (nonlinear_arith)
                requires x == p * hx + (x % p), y == p * hy + (y % p),
                    hy < hx, 0 <= x % p < p, 0 <= y % p < p;
        } else {
            lemma_be_bytes_order(x % p, y % p, (n - 1) as nat);
            assert((x < y) == (x % p < y % p)) by (nonlinear_arith)
                requires x == p * hx + (x % p), y == p * hy + (y % p), hx == hy,
                    0 <= x % p < p, 0 <= y % p < p;
        }
    }
}

/// Appending one digit multiplies the value by 256 and adds the digit.
pub proof fn lemma_be_val_push(s: Seq<u8>, d: u8)
    ensures
        be_val(s.push(d)) == be_val(s) * 256 + d,
    decreases s.len(),
{
    if s.len() == 0 {
        assert(s.push(d).skip(1) =~= Seq::<u8>::empty());
        assert(s.push(d)[0] == d);
        assert(pow256(0) == 1);
        assert(be_val(Seq::<u8>::empty()) == 0);
        assert(be_val(s.push(d)) == d * 1 + 0);
    } else {
        let t = s.push(d);
        assert(t.skip(1) =~= s.skip(1).push(d));
        lemma_be_val_push(s.skip(1), d);
        let m = (s.len() - 1) as nat;
        assert(t[0] == s[0]);
        assert(t.len() - 1 == s.len());
        assert(pow256(s.len()) == 256 * pow256(m));
        assert(s[0] * (256 * pow256(m)) == (s[0] * pow256(m)) * 256) by (nonlinear_arith);
        assert(be_val(t) == s[0] * (256 * pow256(m)) + (be_val(s.skip(1)) * 256 + d));
        assert(be_val(s) * 256 == (s[0] * pow256(m) + be_val(s.skip(1))) * 256);
        assert((s[0] * pow256(m) + be_val(s.skip(1))) * 256
            == (s[0] * pow256(m)) * 256 + be_val(s.skip(1)) * 256) by (nonlinear_arith);
    }
}

/// Exec table of the powers of 256 that fit in a `u64`.
pub fn pow256_u64(k: usize) -> (r: u64)
    requires
        k <= 7,
    ensures
        r == pow256(k as nat),
{
    proof {
        reveal_with_fuel(pow256, 9);
    }
    match k {
        0 => 1,
        1 => 0x100,
        2 => 0x10000,
        3 => 0x1000000,
        4 => 0x100000000,
        5 => 0x10000000000,
        6 => 0x1000000000000,
        _ => 0x100000000000000,
    }
}

/// Appends the `n`-byte big-endian encoding of `x`.
pub fn push_be(out: &mut Vec<u8>, x: u64, n: usize) -> (nothing: ())
    requires
        n <= 8,
        (x as nat) < pow256(n as nat),
    ensures
        final(out)@ == old(out)@ + be_bytes(x as nat, n as nat),
    decreases n,
{
    if n == 0 {
        assert(out@ =~= old(out)@ + be_bytes(x as nat, 0));
        return ;
    }
    let p = pow256_u64(n - 1);
    proof {
        lemma_pow256_pos((n - 1) as nat);
        assert(x / p < 256) by (nonlinear_arith)
            requires (x as nat) < 256 * (p as nat), p >= 1;
    }
    let hi: u8 = (x / p) as u8;
    out.push(hi);
    let ghost mid = out@;
    push_be(out, x % p, n - 1);
    proof {
        assert(out@ =~= old(out)@ + be_bytes(x as nat, n as nat));
    }
}

/// Reads `n` bytes at `pos` as a big-endian integer.
pub fn take_be(buf: &[u8], pos: usize, n: usize) -> (r: Option<(u64, usize)>)
    requires
        n <= 8,
    ensures
        match r {
            Some(vp) => pos + n <= buf@.len() && vp.0 == be_val(buf@.subrange(pos as int, pos + n))
                && vp.1 == pos + n,
            None => pos + n > buf@.len(),
        },
{
    let blen = buf.len();
    if blen < n || pos > blen - n {
        return None;
    }
    let mut acc: u64 = 0;
    let mut i: usize = 0;
    proof {
        reveal_with_fuel(pow256, 9);
        assert(buf@.subrange(pos as int, pos as int) =~= Seq::<u8>::empty());
    }
    while i < n
        invariant
            i <= n,
            n <= 8,
            blen == buf@.len(),
            pos + n <= blen,
            acc == be_val(buf@.subrange(pos as int, pos + i)),
            acc < pow256(i as nat),
            pow256(8) == 0x10000000000000000,
        decreases n - i,
    {
        proof {
            lemma_be_val_push(buf@.subrange(pos as int, pos + i), buf@[pos + i]);
            assert(buf@.subrange(pos as int, pos + i + 1)
                =~= buf@.subrange(pos as int, pos + i).push(buf@[pos + i]));
            assert(pow256((i + 1) as nat) == 256 * pow256(i as nat));
            assert(pow256(i as nat) * 256 <= pow256(8)) by {
                lemma_pow256_mono(i as nat + 1, 8);
            }
            assert(acc * 256 + 255 < 0x10000000000000000);
        }
        acc = acc * 256 + (buf[pos + i] as u64);
        i = i + 1;
    }
    Some((acc, pos + n))
}

pub proof fn lemma_pow256_mono(m: nat, n: nat)
    requires
        m <= n,
    ensures
        pow256(m) <= pow256(n),
    decreases n,
{
    if m < n {
        lemma_pow256_mono(m, (n - 1) as nat);
        lemma_pow256_pos((n - 1) as nat);
    }
}

/// The escaped body of a byte string: each `00` becomes `00 ff`.
pub open spec fn esc_body(s: Seq<u8>) -> Seq<u8>
    decreases s.len(),
{
    if s.len() == 0 {
        Seq::empty()
    } else if s[0] == 0 {
        seq![0u8, 0xffu8] + esc_body(s.skip(1))
    } else {
        seq![s[0]] + esc_body(s.skip(1))
    }
}

/// The full order-preserving encoding: escaped body plus the `00 00` terminator.
pub open spec fn esc(s: Seq<u8>) -> Seq<u8> {
    esc_body(s) + seq![0u8, 0u8]
}

/// What a strict decoder yields from a buffer that starts with an escaped
/// string: the decoded bytes and the number of bytes consumed.
pub open spec fn esc_dec(s: Seq<u8>) -> Option<(Seq<u8>, int)>
    decreases s.len(),
{
    if s.len() == 0 {
        None
    } else if s[0] != 0 {
        match esc_dec(s.skip(1)) {
            Some(dc) => Some((seq![s[0]] + dc.0, dc.1 + 1)),
            None => None,
        }
    } else if s.len() < 2 {
        None
    } else if s[1] == 0 {
        Some((Seq::empty(), 2))
    } else if s[1] == 0xff {
        match esc_dec(s.skip(2)) {
            Some(dc) => Some((seq![0u8] + dc.0, dc.1 + 2)),
            None => None,
        }
    } else {
        None
    }
}

/// Decoding inverts encoding, whatever follows the terminator: the escape
/// code is prefix-free.
pub proof fn lemma_esc_dec_of_esc(a: Seq<u8>, rest: Seq<u8>)
    ensures
        esc_dec(esc(a) + rest) == Some((a, esc(a).len() as int)),
    decreases a.len(),
{
    let s = esc(a) + rest;
    if a.len() == 0 {
        assert(s[0] == 0 && s[1] == 0);
        assert(esc_dec(s) == Some((Seq::<u8>::empty(), 2int)));
        assert(a =~= Seq::<u8>::empty());
    } else if a[0] == 0 {
        assert(s =~= seq![0u8, 0xffu8] + (esc(a.skip(1)) + rest));
        assert(s[0] == 0 && s[1] == 0xff);
        assert(s.skip(2) =~= esc(a.skip(1)) + rest);
        lemma_esc_dec_of_esc(a.skip(1), rest);
        assert(seq![0u8] + a.skip(1) =~= a);
        assert(esc(a).len() == esc(a.skip(1)).len() + 2) by {
            assert(esc(a) =~= seq![0u8, 0xffu8] + esc(a.skip(1)));
        }
    } else {
        assert(s =~= seq![a[0]] + (esc(a.skip(1)) + rest));
        assert(s[0] == a[0] && s[0] != 0);
        assert(s.skip(1) =~= esc(a.skip(1)) + rest);
        lemma_esc_dec_of_esc(a.skip(1), rest);
        assert(seq![a[0]] + a.skip(1) =~= a);
        assert(esc(a).len() == esc(a.skip(1)).len() + 1) by {
            assert(esc(a) =~= seq![a[0]] + esc(a.skip(1)));
        }
    }
}

/// The escape encoding preserves lexicographic order, and where the strings
/// are equal the comparison falls through to whatever follows the terminator.
pub proof fn lemma_esc_order(a: Seq<u8>, b: Seq<u8>, s: Seq<u8>, t: Seq<u8>)
    ensures
        lex_lt(esc(a) + s, esc(b) + t) == (lex_lt(a, b) || (a == b && lex_lt(s, t))),
    decreases a.len() + b.len(),
{
    let ea = esc(a) + s;
    let eb = esc(b) + t;
    if a.len() == 0 && b.len() == 0 {
        assert(ea =~= seq![0u8, 0u8] + s);
        assert(eb =~= seq![0u8, 0u8] + t);
        crate::bytes_order::lemma_lex_common_prefix(seq![0u8, 0u8], s, t);
        assert(a =~= b);
        crate::bytes_order::lemma_lex_irrefl(a);
    } else if a.len() == 0 {
        // `a` terminates at once; `b` begins with an escaped or plain byte.
        assert(ea =~= seq![0u8, 0u8] + s);
        assert(lex_lt(a, b));
        if b[0] == 0 {
            assert(eb =~= seq![0u8, 0xffu8] + (esc(b.skip(1)) + t));
            assert(ea[0] == 0 && eb[0] == 0);
            assert(ea.skip(1) =~= seq![0u8] + s);
            assert(eb.skip(1) =~= seq![0xffu8] + (esc(b.skip(1)) + t));
            assert(ea.skip(1)[0] == 0 && eb.skip(1)[0] == 0xff);
            assert(ea.skip(1).len() > 0 && eb.skip(1).len() > 0);
            assert(lex_lt(ea.skip(1), eb.skip(1)));
            assert(lex_lt(ea, eb));
        } else {
            assert(eb[0] == b[0]);
            assert(ea[0] == 0);
            assert(lex_lt(ea, eb));
        }
    } else if b.len() == 0 {
        assert(eb =~= seq![0u8, 0u8] + t);
        assert(!lex_lt(a, b));
        assert(a != b);
        if a[0] == 0 {
            assert(ea =~= seq![0u8, 0xffu8] + (esc(a.skip(1)) + s));
            assert(ea[0] == 0 && eb[0] == 0);
            assert(ea.skip(1) =~= seq![0xffu8] + (esc(a.skip(1)) + s));
            assert(eb.skip(1) =~= seq![0u8] + t);
            assert(ea.skip(1)[0] == 0xff && eb.skip(1)[0] == 0);
            assert(ea.skip(1).len() > 0 && eb.skip(1).len() > 0);
            assert(!lex_lt(ea.skip(1), eb.skip(1)));
            assert(!lex_lt(ea, eb));
        } else {
            assert(ea[0] == a[0]);
            assert(eb[0] == 0);
            assert(!lex_lt(ea, eb));
        }
    } else {
        let a0 = a[0];
        let b0 = b[0];
        if a0 == 0 && b0 == 0 {
            assert(ea =~= seq![0u8, 0xffu8] + (esc(a.skip(1)) + s));
            assert(eb =~= seq![0u8, 0xffu8] + (esc(b.skip(1)) + t));
            crate::bytes_order::lemma_lex_common_prefix(
                seq![0u8, 0xffu8], esc(a.skip(1)) + s, esc(b.skip(1)) + t);
            lemma_esc_order(a.skip(1), b.skip(1), s, t);
            lemma_seq_head_tail_eq(a, b);
        } else if a0 == 0 {
            // 0x00 is escaped to 00 ff; b starts with b0 > 0.
            assert(ea =~= seq![0u8, 0xffu8] + (esc(a.skip(1)) + s));
            assert(eb[0] == b0);
            assert(ea[0] == 0);
            assert(lex_lt(ea, eb));
            assert(lex_lt(a, b));
        } else if b0 == 0 {
            assert(eb =~= seq![0u8, 0xffu8] + (esc(b.skip(1)) + t));
            assert(ea[0] == a0);
            assert(eb[0] == 0);
            assert(!lex_lt(ea, eb));
            assert(!lex_lt(a, b));
            assert(a != b);
        } else if a0 < b0 {
            assert(ea[0] == a0 && eb[0] == b0);
            assert(lex_lt(ea, eb));
            assert(lex_lt(a, b));
        } else if a0 > b0 {
            assert(ea[0] == a0 && eb[0] == b0);
            assert(!lex_lt(ea, eb));
            assert(!lex_lt(a, b));
            assert(a != b);
        } else {
            assert(ea =~= seq![a0] + (esc(a.skip(1)) + s));
            assert(eb =~= seq![b0] + (esc(b.skip(1)) + t));
            crate::bytes_order::lemma_lex_common_prefix(
                seq![a0], esc(a.skip(1)) + s, esc(b.skip(1)) + t);
            lemma_esc_order(a.skip(1), b.skip(1), s, t);
            lemma_seq_head_tail_eq(a, b);
        }
    }
}

/// Two nonempty sequences with equal heads are equal exactly when their tails are.
proof fn lemma_seq_head_tail_eq(a: Seq<u8>, b: Seq<u8>)
    requires
        a.len() > 0,
        b.len() > 0,
        a[0] == b[0],
    ensures
        (a == b) == (a.skip(1) == b.skip(1)),
{
    if a.skip(1) == b.skip(1) {
        assert(a.skip(1).len() == a.len() - 1);
        assert(b.skip(1).len() == b.len() - 1);
        assert(a.len() == b.len());
        assert forall|j: int| 0 <= j < a.len() implies a[j] == b[j] by {
            if j >= 1 {
                assert(a[j] == a.skip(1)[j - 1]);
                assert(b[j] == b.skip(1)[j - 1]);
            }
        }
        assert(a =~= b);
    }
    if a == b {
        assert(a.skip(1) =~= b.skip(1));
    }
}

/// Appends the escaped encoding of `s` (body plus terminator).
pub fn push_escaped(out: &mut Vec<u8>, s: &[u8]) -> (nothing: ())
    ensures
        final(out)@ == old(out)@ + esc(s@),
{
    let mut i: usize = 0;
    proof {
        assert(s@.subrange(0, 0) =~= Seq::<u8>::empty());
        assert(out@ =~= old(out)@ + esc_body(s@.subrange(0, 0)));
    }
    while i < s.len()
        invariant
            i <= s.len(),
            out@ == old(out)@ + esc_body(s@.subrange(0, i as int)),
        decreases s.len() - i,
    {
        let b = s[i];
        if b == 0 {
            out.push(0);
            out.push(0xff);
        } else {
            out.push(b);
        }
        proof {
            lemma_esc_body_push(s@.subrange(0, i as int), b);
            assert(s@.subrange(0, i + 1) =~= s@.subrange(0, i as int).push(b));
            assert(out@ =~= old(out)@ + esc_body(s@.subrange(0, i + 1)));
        }
        i = i + 1;
    }
    out.push(0);
    out.push(0);
    proof {
        assert(s@.subrange(0, s@.len() as int) =~= s@);
        assert(out@ =~= old(out)@ + esc(s@));
    }
}

proof fn lemma_esc_body_push(s: Seq<u8>, d: u8)
    ensures
        esc_body(s.push(d)) == esc_body(s) + (if d == 0 { seq![0u8, 0xffu8] } else { seq![d] }),
    decreases s.len(),
{
    let unit: Seq<u8> = if d == 0 { seq![0u8, 0xffu8] } else { seq![d] };
    if s.len() == 0 {
        assert(s.push(d)[0] == d);
        assert(s.push(d).skip(1) =~= Seq::<u8>::empty());
        assert(esc_body(Seq::<u8>::empty()) == Seq::<u8>::empty());
        assert(esc_body(s.push(d)) =~= esc_body(s) + unit);
    } else {
        assert(s.push(d)[0] == s[0]);
        assert(s.push(d).skip(1) =~= s.skip(1).push(d));
        lemma_esc_body_push(s.skip(1), d);
        let head: Seq<u8> = if s[0] == 0 { seq![0u8, 0xffu8] } else { seq![s[0]] };
        assert(esc_body(s.push(d)) =~= head + (esc_body(s.skip(1)) + unit));
        assert(esc_body(s) + unit =~= head + (esc_body(s.skip(1)) + unit));
    }
}

/// Reads one escaped byte string at `pos`; strict about malformed escapes.
pub fn take_escaped(buf: &[u8], pos: usize) -> (r: Option<(Vec<u8>, usize)>)
    requires
        pos <= buf@.len(),
    ensures
        match r {
            Some(vp) => {
                &&& esc_dec(buf@.skip(pos as int)) == Some((vp.0@, vp.1 - pos as int))
                &&& pos <= vp.1 <= buf@.len()
            },
            None => esc_dec(buf@.skip(pos as int)) is None,
        },
{
    let mut out: Vec<u8> = Vec::new();
    let mut i: usize = pos;
    loop
        invariant
            pos <= i <= buf@.len(),
            ({
                let orig = esc_dec(buf@.skip(pos as int));
                match esc_dec(buf@.skip(i as int)) {
                    Some(dc) => orig == Some((out@ + dc.0, dc.1 + i - pos)),
                    None => orig is None,
                }
            }),
        decreases buf@.len() - i,
    {
        if i >= buf.len() {
            assert(buf@.skip(i as int).len() == 0);
            return None;
        }
        let b = buf[i];
        assert(buf@.skip(i as int)[0] == b);
        if b != 0 {
            proof {
                assert(buf@.skip(i as int).skip(1) =~= buf@.skip(i + 1));
                if esc_dec(buf@.skip(i + 1)) is Some {
                    let dc = esc_dec(buf@.skip(i + 1)).unwrap();
                    assert(out@.push(b) + dc.0 =~= out@ + (seq![b] + dc.0));
                }
            }
            out.push(b);
            i = i + 1;
        } else {
            if i + 1 >= buf.len() {
                assert(buf@.skip(i as int).len() < 2);
                return None;
            }
            let c = buf[i + 1];
            assert(buf@.skip(i as int)[1] == c);
            if c == 0 {
                proof {
                    assert(esc_dec(buf@.skip(i as int)) == Some((Seq::<u8>::empty(), 2int)));
                    assert(out@ + Seq::<u8>::empty() =~= out@);
                }
                return Some((out, i + 2));
            } else if c == 0xff {
                proof {
                    assert(buf@.skip(i as int).skip(2) =~= buf@.skip(i + 2));
                    if esc_dec(buf@.skip(i + 2)) is Some {
                        let dc = esc_dec(buf@.skip(i + 2)).unwrap();
                        assert(out@.push(0u8) + dc.0 =~= out@ + (seq![0u8] + dc.0));
                    }
                }
                out.push(0);
                i = i + 2;
            } else {
                return None;
            }
        }
    }
}

} // verus!

