//! Big-endian byte strings of fixed width, and the values they denote.
//!
//! Every 32-byte word of the contract call encoding is the big-endian image
//! of a natural number; these definitions and lemmas are shared by the
//! encoder, the decoder, and the round-trip proof.

use vstd::prelude::*;

verus! {

/// 256 raised to `n`: the number of byte strings of length `n`.
pub open spec fn pow256(n: nat) -> nat
    decreases n,
{
    if n == 0 {
        1
    } else {
        256 * pow256((n - 1) as nat)
    }
}

/// The big-endian byte string of width `n` denoting `v` (most significant
/// byte first). Defined for every `v`; widths narrower than `v` drop the
/// high bits, so callers bound `v` by `pow256(n)`.
pub open spec fn be_bytes(v: nat, n: nat) -> Seq<u8>
    decreases n,
{
    if n == 0 {
        Seq::empty()
    } else {
        be_bytes(v / 256, (n - 1) as nat).push((v % 256) as u8)
    }
}

/// The value a big-endian byte string denotes.
pub open spec fn be_val(s: Seq<u8>) -> nat
    decreases s.len(),
{
    if s.len() == 0 {
        0
    } else {
        (be_val(s.drop_last()) * 256 + s.last()) as nat
    }
}

pub proof fn lemma_pow256_pos(n: nat)
    ensures
        pow256(n) >= 1,
    decreases n,
{
    if n > 0 {
        lemma_pow256_pos((n - 1) as nat);
    }
}

/// `pow256` is monotone in its argument.
pub proof fn lemma_pow256_le(m: nat, n: nat)
    requires
        m <= n,
    ensures
        pow256(m) <= pow256(n),
    decreases n,
{
    if m < n {
        lemma_pow256_le(m, (n - 1) as nat);
        lemma_pow256_pos((n - 1) as nat);
    }
}

/// `pow256` turns addition of widths into multiplication.
pub proof fn lemma_pow256_add(m: nat, n: nat)
    ensures
        pow256((m + n) as nat) == pow256(m) * pow256(n),
    decreases m,
{
    if m == 0 {
        assert(1 * pow256(n) == pow256(n)) by (nonlinear_arith);
    } else {
        lemma_pow256_add((m - 1) as nat, n);
        assert(256 * (pow256((m - 1) as nat) * pow256(n)) == (256 * pow256((m - 1) as nat))
            * pow256(n)) by (nonlinear_arith);
    }
}

pub proof fn lemma_be_bytes_len(v: nat, n: nat)
    ensures
        be_bytes(v, n).len() == n,
    decreases n,
{
    if n > 0 {
        lemma_be_bytes_len(v / 256, (n - 1) as nat);
    }
}

/// A byte string denotes a value below 256 to its length.
pub proof fn lemma_be_val_bound(s: Seq<u8>)
    ensures
        be_val(s) < pow256(s.len()),
    decreases s.len(),
{
    if s.len() > 0 {
        lemma_be_val_bound(s.drop_last());
        let p = pow256((s.len() - 1) as nat);
        assert(be_val(s.drop_last()) * 256 + s.last() < p * 256) by (nonlinear_arith)
            requires
                be_val(s.drop_last()) < p,
                s.last() < 256,
        ;
    }
}

/// Decoding inverts encoding: the byte string of `v` denotes `v` again.
pub proof fn lemma_be_val_of_be_bytes(v: nat, n: nat)
    requires
        v < pow256(n),
    ensures
        be_val(be_bytes(v, n)) == v,
    decreases n,
{
    if n > 0 {
        lemma_be_bytes_len(v / 256, (n - 1) as nat);
        let s = be_bytes(v, n);
        assert(s.drop_last() =~= be_bytes(v / 256, (n - 1) as nat));
        assert(v / 256 < pow256((n - 1) as nat)) by (nonlinear_arith)
            requires
                v < 256 * pow256((n - 1) as nat),
        ;
        lemma_be_val_of_be_bytes(v / 256, (n - 1) as nat);
        assert((v / 256) * 256 + v % 256 == v) by (nonlinear_arith);
    }
}

/// The denotation of a concatenation: the left part is shifted past the right.
pub proof fn lemma_be_val_append(a: Seq<u8>, b: Seq<u8>)
    ensures
        be_val(a + b) == be_val(a) * pow256(b.len()) + be_val(b),
    decreases b.len(),
{
    if b.len() == 0 {
        assert(a + b =~= a);
        assert(pow256(0) == 1);
        assert(be_val(a) * 1 == be_val(a));
    } else {
        assert((a + b).drop_last() =~= a + b.drop_last());
        assert((a + b).last() == b.last());
        lemma_be_val_append(a, b.drop_last());
        let p = pow256((b.len() - 1) as nat);
        assert(b.drop_last().len() == b.len() - 1);
        assert(be_val(a + b.drop_last()) == be_val(a) * p + be_val(b.drop_last()));
        assert(pow256(b.len()) == 256 * p);
        assert(be_val(a + b) == be_val((a + b).drop_last()) * 256 + (a + b).last());
        assert(be_val(a + b) == (be_val(a) * p + be_val(b.drop_last())) * 256 + b.last());
        assert(be_val(b) == be_val(b.drop_last()) * 256 + b.last());
        assert((be_val(a) * p + be_val(b.drop_last())) * 256 + b.last() == be_val(a) * (256 * p) + (
        be_val(b.drop_last()) * 256 + b.last())) by (nonlinear_arith);
        assert(be_val(a) * (256 * p) == be_val(a) * pow256(b.len())) by (nonlinear_arith)
            requires
                pow256(b.len()) == 256 * p,
        ;
    }
}

/// Splitting an encoding: the wide byte string of `hi * pow256(n) + lo` is
/// the byte string of `hi` followed by that of `lo`.
pub proof fn lemma_be_bytes_split(hi: nat, lo: nat, m: nat, n: nat)
    requires
        lo < pow256(n),
    ensures
        be_bytes(hi * pow256(n) + lo, (m + n) as nat) == be_bytes(hi, m) + be_bytes(lo, n),
    decreases n,
{
    if n == 0 {
        assert(hi * 1 + lo == hi) by (nonlinear_arith)
            requires
                lo < 1,
        ;
        assert(be_bytes(hi, m) + be_bytes(lo, 0) =~= be_bytes(hi, m));
    } else {
        let p = pow256((n - 1) as nat);
        let v = hi * (256 * p) + lo;
        assert(v / 256 == hi * p + lo / 256 && v % 256 == lo % 256) by (nonlinear_arith)
            requires
                p >= 1,
                v == hi * (256 * p) + lo,
                lo < 256 * p,
        ;
        assert(lo / 256 < p) by (nonlinear_arith)
            requires
                lo < 256 * p,
        ;
        lemma_be_bytes_split(hi, lo / 256, m, (n - 1) as nat);
        assert(be_bytes(v, (m + n) as nat) == be_bytes(hi * p + lo / 256, (m + n - 1) as nat).push(
            (lo % 256) as u8));
        assert((be_bytes(hi, m) + be_bytes(lo / 256, (n - 1) as nat)).push((lo % 256) as u8)
            =~= be_bytes(hi, m) + be_bytes(lo / 256, (n - 1) as nat).push((lo % 256) as u8));
    }
}

/// Encoding inverts decoding: a byte string is the byte string of its value.
pub proof fn lemma_be_bytes_of_be_val(s: Seq<u8>)
    ensures
        be_bytes(be_val(s), s.len()) == s,
    decreases s.len(),
{
    if s.len() == 0 {
        assert(be_bytes(0, 0) =~= s);
    } else {
        lemma_be_bytes_of_be_val(s.drop_last());
        let v = be_val(s);
        let pv = be_val(s.drop_last());
        assert(v == pv * 256 + s.last());
        assert(v / 256 == pv && v % 256 == s.last()) by (nonlinear_arith)
            requires
                v == pv * 256 + s.last(),
                0 <= s.last() < 256,
        ;
        assert(be_bytes(v, s.len()) == be_bytes(pv, (s.len() - 1) as nat).push(s.last()));
        assert(s.drop_last().push(s.last()) =~= s);
    }
}

proof fn lemma_pow256_16_value()
    ensures
        pow256(16) == 0x100000000000000000000000000000000,
{
    reveal_with_fuel(pow256, 17);
}

/// Every `u128` fits in 16 big-endian bytes.
pub proof fn lemma_u128_fits(v: u128)
    ensures
        (v as nat) < pow256(16),
{
    lemma_pow256_16_value();
}

/// Appends the `n`-byte big-endian form of `v` to `out`.
pub fn push_be_bytes(out: &mut Vec<u8>, v: u128, n: usize)
    requires
        (v as nat) < pow256(n as nat),
    ensures
        final(out)@ == old(out)@ + be_bytes(v as nat, n as nat),
    decreases n,
{
    if n == 0 {
        assert(old(out)@ + be_bytes(v as nat, 0) =~= old(out)@);
    } else {
        proof {
            assert((v as nat) / 256 < pow256((n - 1) as nat)) by (nonlinear_arith)
                requires
                    (v as nat) < 256 * pow256((n - 1) as nat),
            ;
        }
        let byte: u8 = (v % 256) as u8;
        push_be_bytes(out, v / 256, n - 1);
        out.push(byte);
        proof {
            assert(old(out)@ + be_bytes((v as nat) / 256, (n - 1) as nat).push(
                ((v as nat) % 256) as u8) =~= (old(out)@ + be_bytes((v as nat) / 256,
                (n - 1) as nat)).push(((v as nat) % 256) as u8));
        }
    }
}

/// The UTF-8 bytes of an ASCII string literal.
pub open spec fn lit(s: Seq<char>) -> Seq<u8> {
    s.map_values(|c: char| c as u8)
}

/// The all-zero byte string of length `n`.
pub open spec fn zeros(n: nat) -> Seq<u8> {
    Seq::new(n, |i: int| 0u8)
}

/// A byte string denotes zero exactly when every byte is zero.
pub proof fn lemma_be_val_zero(s: Seq<u8>)
    ensures
        (be_val(s) == 0) <==> (s == zeros(s.len())),
    decreases s.len(),
{
    if s.len() == 0 {
        assert(s =~= zeros(0));
    } else {
        lemma_be_val_zero(s.drop_last());
        if be_val(s) == 0 {
            assert(be_val(s.drop_last()) == 0 && s.last() == 0) by (nonlinear_arith)
                requires
                    be_val(s.drop_last()) * 256 + s.last() == 0,
            ;
            assert(s.drop_last() =~= zeros((s.len() - 1) as nat));
            assert forall|i: int| 0 <= i < s.len() implies s[i] == 0 by {
                if i < s.len() - 1 {
                    assert(s[i] == s.drop_last()[i]);
                }
            }
            assert(s =~= zeros(s.len()));
        }
        if s == zeros(s.len()) {
            assert(s.drop_last() =~= zeros((s.len() - 1) as nat));
            assert(s.last() == 0);
        }
    }
}

/// Whether `b[from .. to]` is all zeros.
pub fn is_zeros(b: &Vec<u8>, from: usize, to: usize) -> (r: bool)
    requires
        from <= to,
        to <= b.len(),
    ensures
        r == (b@.subrange(from as int, to as int) == zeros((to - from) as nat)),
{
    let mut i = from;
    while i < to
        invariant
            from <= i <= to,
            to <= b.len(),
            forall|j: int| from <= j < i ==> b@[j] == 0,
        decreases to - i,
    {
        if b[i] != 0 {
            assert(b@.subrange(from as int, to as int)[i - from] != 0);
            assert(zeros((to - from) as nat)[i - from] == 0);
            return false;
        }
        i += 1;
    }
    proof {
        assert(b@.subrange(from as int, to as int) =~= zeros((to - from) as nat));
    }
    true
}

/// Copies `b[from .. to]` out into a fresh vector.
pub fn copy_range(b: &Vec<u8>, from: usize, to: usize) -> (r: Vec<u8>)
    requires
        from <= to,
        to <= b.len(),
    ensures
        r@ == b@.subrange(from as int, to as int),
{
    let mut out: Vec<u8> = Vec::new();
    let mut i = from;
    while i < to
        invariant
            from <= i <= to,
            to <= b.len(),
            out@ == b@.subrange(from as int, i as int),
        decreases to - i,
    {
        out.push(b[i]);
        proof {
            assert(b@.subrange(from as int, i as int).push(b@[i as int]) =~= b@.subrange(
                from as int, i + 1));
        }
        i += 1;
    }
    out
}

/// Appends a copy of `src` to `out`.
pub fn push_bytes(out: &mut Vec<u8>, src: &Vec<u8>)
    ensures
        final(out)@ == old(out)@ + src@,
{
    let n = src.len();
    let mut i: usize = 0;
    while i < n
        invariant
            n == src.len(),
            i <= n,
            out@ == old(out)@ + src@.take(i as int),
        decreases n - i,
    {
        out.push(src[i]);
        proof {
            assert((old(out)@ + src@.take(i as int)).push(src@[i as int]) =~= old(out)@
                + src@.take(i + 1));
        }
        i += 1;
    }
    proof {
        assert(src@.take(n as int) =~= src@);
    }
}

/// Appends `n` zero bytes to `out`.
pub fn push_zeros(out: &mut Vec<u8>, n: usize)
    ensures
        final(out)@ == old(out)@ + zeros(n as nat),
{
    let mut i: usize = 0;
    while i < n
        invariant
            i <= n,
            out@ == old(out)@ + zeros(i as nat),
        decreases n - i,
    {
        out.push(0u8);
        proof {
            assert((old(out)@ + zeros(i as nat)).push(0u8) =~= old(out)@ + zeros((i + 1) as nat));
        }
        i += 1;
    }
}

/// The value denoted by `s[from .. to]`, read big-endian; at most 16 bytes,
/// so the result fits a `u128`.
pub fn be_slice_val(s: &Vec<u8>, from: usize, to: usize) -> (r: u128)
    requires
        from <= to,
        to <= s.len(),
        to - from <= 16,
    ensures
        r as nat == be_val(s@.subrange(from as int, to as int)),
    decreases to - from,
{
    if to == from {
        assert(s@.subrange(from as int, to as int) =~= Seq::<u8>::empty());
        0
    } else {
        let prefix = be_slice_val(s, from, to - 1);
        proof {
            let sub = s@.subrange(from as int, to as int);
            assert(sub.drop_last() =~= s@.subrange(from as int, to as int - 1));
            lemma_be_val_bound(s@.subrange(from as int, to as int - 1));
            lemma_pow256_le((to - from - 1) as nat, 15);
            assert(pow256(15) == 0x1000000000000000000000000000000) by {
                reveal_with_fuel(pow256, 16);
            }
        }
        prefix * 256 + (s[to - 1] as u128)
    }
}

} // verus!
