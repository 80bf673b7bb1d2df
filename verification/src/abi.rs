//! Contract binding: typed values and their call encoding.
//!
//! A method call is encoded as a four-byte selector followed by the tuple
//! encoding of the arguments; a method's return data is the tuple encoding
//! of the declared return values. A tuple is laid out as one 32-byte head
//! word per value — the value itself for static types, an offset into the
//! tail region for dynamic ones — followed by the tail region holding the
//! dynamic values' data in order.

use vstd::prelude::*;
use crate::bytes::{
    pow256, be_bytes, be_val, zeros, push_be_bytes, push_bytes, push_zeros, be_slice_val, is_zeros,
    copy_range, lemma_pow256_pos, lemma_pow256_le, lemma_pow256_add, lemma_be_bytes_len,
    lemma_be_val_of_be_bytes, lemma_be_val_append, lemma_be_bytes_split, lemma_u128_fits,
};
use crate::types::{Address, Uint256, bytes_eq};
use crate::error::ChainError;
use vstd::string::StrSliceExecFns;

verus! {

/// The primitive types a contract interface can declare.
#[derive(Clone, Copy, Debug, PartialEq, Eq, Structural)]
pub enum ParamType {
    Address,
    Uint,
    Bool,
    Str,
    UintArray,
}

/// A typed argument or return value.
#[derive(Clone, Debug)]
pub enum Value {
    Address(Address),
    Uint(Uint256),
    Bool(bool),
    /// UTF-8 bytes of a string value.
    Str(Vec<u8>),
    UintArray(Vec<Uint256>),
}

/// The mathematical content of a `Value`: what the encoding is a function of.
pub enum ValueModel {
    Address(Seq<u8>),
    Uint(nat),
    Bool(bool),
    Str(Seq<u8>),
    UintArray(Seq<nat>),
}

impl View for Value {
    type V = ValueModel;

    open spec fn view(&self) -> ValueModel {
        match self {
            Value::Address(a) => ValueModel::Address(a.bytes@),
            Value::Uint(u) => ValueModel::Uint(u.value()),
            Value::Bool(b) => ValueModel::Bool(*b),
            Value::Str(s) => ValueModel::Str(s@),
            Value::UintArray(xs) => ValueModel::UintArray(uints_of(xs@)),
        }
    }
}

pub open spec fn uints_of(xs: Seq<Uint256>) -> Seq<nat> {
    xs.map_values(|u: Uint256| u.value())
}

pub open spec fn models_of(vs: Seq<Value>) -> Seq<ValueModel> {
    vs.map_values(|v: Value| v@)
}

/// Structural soundness of an exec value: an address holds 20 bytes.
pub open spec fn value_wf(v: Value) -> bool {
    match v {
        Value::Address(a) => a.wf(),
        _ => true,
    }
}

pub open spec fn values_wf(vs: Seq<Value>) -> bool {
    forall|i: int| 0 <= i < vs.len() ==> value_wf(vs[i])
}

/// Whether a model value belongs to a declared type, with the size bounds
/// under which its encoding is faithful.
pub open spec fn model_matches(m: ValueModel, t: ParamType) -> bool {
    match m {
        ValueModel::Address(b) => t == ParamType::Address && b.len() == 20,
        ValueModel::Uint(v) => t == ParamType::Uint && v < pow256(32),
        ValueModel::Bool(_) => t == ParamType::Bool,
        ValueModel::Str(s) => t == ParamType::Str && s.len() < pow256(8),
        ValueModel::UintArray(xs) => t == ParamType::UintArray && xs.len() < pow256(8)
            && (forall|i: int| 0 <= i < xs.len() ==> xs[i] < pow256(32)),
    }
}

pub open spec fn models_match(ts: Seq<ParamType>, ms: Seq<ValueModel>) -> bool {
    &&& ts.len() == ms.len()
    &&& ts.len() < pow256(8)
    &&& forall|i: int| 0 <= i < ts.len() ==> model_matches(#[trigger] ms[i], ts[i])
}

pub open spec fn is_dynamic(t: ParamType) -> bool {
    t == ParamType::Str || t == ParamType::UintArray
}

pub open spec fn model_is_dynamic(m: ValueModel) -> bool {
    match m {
        ValueModel::Str(_) => true,
        ValueModel::UintArray(_) => true,
        _ => false,
    }
}

/// The head word of a static value.
pub open spec fn static_word(m: ValueModel) -> Seq<u8> {
    match m {
        ValueModel::Address(b) => zeros(12) + b,
        ValueModel::Uint(v) => be_bytes(v, 32),
        ValueModel::Bool(b) => zeros(31).push(if b { 1u8 } else { 0u8 }),
        ValueModel::Str(_) => Seq::empty(),
        ValueModel::UintArray(_) => Seq::empty(),
    }
}

/// Zero padding that rounds a byte count up to a multiple of 32.
pub open spec fn pad_len(l: nat) -> nat {
    ((32 - l % 32) % 32) as nat
}

/// The element words of a `uint256[]` value, first `k` elements.
pub open spec fn uint_words(xs: Seq<nat>, k: int) -> Seq<u8>
    decreases k,
{
    if k <= 0 {
        Seq::empty()
    } else {
        uint_words(xs, k - 1) + be_bytes(xs[k - 1], 32)
    }
}

/// The tail region contribution of a value: empty for static types.
pub open spec fn tail_bytes(m: ValueModel) -> Seq<u8> {
    match m {
        ValueModel::Str(s) => be_bytes(s.len(), 32) + s + zeros(pad_len(s.len())),
        ValueModel::UintArray(xs) => be_bytes(xs.len(), 32) + uint_words(xs, xs.len() as int),
        _ => Seq::empty(),
    }
}

/// Total length of the tail regions of the first `k` values.
pub open spec fn tails_len(ms: Seq<ValueModel>, k: int) -> nat
    decreases k,
{
    if k <= 0 {
        0
    } else {
        tails_len(ms, k - 1) + tail_bytes(ms[k - 1]).len()
    }
}

/// The head word of value `i`: the value itself, or its tail offset.
pub open spec fn head_word(ms: Seq<ValueModel>, i: int) -> Seq<u8> {
    if model_is_dynamic(ms[i]) {
        be_bytes(32 * ms.len() + tails_len(ms, i), 32)
    } else {
        static_word(ms[i])
    }
}

/// The concatenated head words of the first `k` values.
pub open spec fn heads(ms: Seq<ValueModel>, k: int) -> Seq<u8>
    decreases k,
{
    if k <= 0 {
        Seq::empty()
    } else {
        heads(ms, k - 1) + head_word(ms, k - 1)
    }
}

/// The concatenated tail regions of the first `k` values.
pub open spec fn tails(ms: Seq<ValueModel>, k: int) -> Seq<u8>
    decreases k,
{
    if k <= 0 {
        Seq::empty()
    } else {
        tails(ms, k - 1) + tail_bytes(ms[k - 1])
    }
}

/// The tuple encoding of a value sequence.
pub open spec fn enc_tuple(ms: Seq<ValueModel>) -> Seq<u8> {
    heads(ms, ms.len() as int) + tails(ms, ms.len() as int)
}

/// Encodes a tuple of well-formed values.
pub fn encode_values(vs: &Vec<Value>) -> (r: Vec<u8>)
    requires
        values_wf(vs@),
    ensures
        r@ == enc_tuple(models_of(vs@)),
{
    let ghost ms = models_of(vs@);
    let n = vs.len();
    let mut heads_v: Vec<u8> = Vec::new();
    let mut tails_v: Vec<u8> = Vec::new();
    let mut i: usize = 0;
    while i < n
        invariant
            n == vs.len(),
            i <= n,
            ms == models_of(vs@),
            values_wf(vs@),
            heads_v@ == heads(ms, i as int),
            tails_v@ == tails(ms, i as int),
            tails_v@.len() == tails_len(ms, i as int),
        decreases n - i,
    {
        proof {
            assert(ms[i as int] == vs@[i as int]@);
        }
        match &vs[i] {
            Value::Address(a) => {
                push_zeros(&mut heads_v, 12);
                push_bytes(&mut heads_v, &a.bytes);
                proof {
                    assert(heads_v@ =~= heads(ms, i as int) + (zeros(12) + a.bytes@));
                    assert(head_word(ms, i as int) == zeros(12) + a.bytes@);
                }
            },
            Value::Uint(u) => {
                proof {
                    lemma_u128_fits(u.lo);
                    lemma_u128_fits(u.hi);
                    lemma_be_bytes_split(u.hi as nat, u.lo as nat, 16, 16);
                    assert(head_word(ms, i as int) == be_bytes(u.value(), 32));
                    assert(u.value() == (u.hi as nat) * pow256(16) + u.lo);
                }
                push_be_bytes(&mut heads_v, u.hi, 16);
                push_be_bytes(&mut heads_v, u.lo, 16);
                proof {
                    assert(heads_v@ == heads(ms, i as int) + be_bytes(u.hi as nat, 16) + be_bytes(
                        u.lo as nat, 16));
                    assert(heads(ms, i as int) + be_bytes(u.hi as nat, 16) + be_bytes(
                        u.lo as nat, 16) =~= heads(ms, i as int) + (be_bytes(u.hi as nat, 16)
                        + be_bytes(u.lo as nat, 16)));
                }
            },
            Value::Bool(b) => {
                push_zeros(&mut heads_v, 31);
                let byte: u8 = if *b {
                    1
                } else {
                    0
                };
                heads_v.push(byte);
                proof {
                    assert(heads_v@ =~= heads(ms, i as int) + zeros(31).push(byte));
                    assert(head_word(ms, i as int) == zeros(31).push(byte));
                }
            },
            Value::Str(s) => {
                let tl = tails_v.len();
                proof {
                    lemma_offset_fits(ms, i as int, n as nat);
                    lemma_u128_fits((s.len() as u128));
                    lemma_pow256_le(16, 32);
                }
                let off: u128 = 32 * (n as u128) + (tl as u128);
                push_be_bytes(&mut heads_v, off, 32);
                push_be_bytes(&mut tails_v, s.len() as u128, 32);
                push_bytes(&mut tails_v, s);
                let pad: usize = (32 - s.len() % 32) % 32;
                push_zeros(&mut tails_v, pad);
                proof {
                    assert(head_word(ms, i as int) == be_bytes(32 * ms.len() + tails_len(
                        ms, i as int), 32));
                    assert(off as nat == 32 * ms.len() + tails_len(ms, i as int));
                    assert(tail_bytes(ms[i as int]) == be_bytes(s@.len(), 32) + s@ + zeros(
                        pad_len(s@.len())));
                    assert(pad as nat == pad_len(s@.len()));
                    assert(tails_v@ =~= tails(ms, i as int) + (be_bytes(s@.len(), 32) + s@
                        + zeros(pad_len(s@.len()))));
                }
            },
            Value::UintArray(xs) => {
                let tl = tails_v.len();
                proof {
                    lemma_offset_fits(ms, i as int, n as nat);
                    lemma_u128_fits((xs.len() as u128));
                    lemma_pow256_le(16, 32);
                }
                let off: u128 = 32 * (n as u128) + (tl as u128);
                push_be_bytes(&mut heads_v, off, 32);
                push_be_bytes(&mut tails_v, xs.len() as u128, 32);
                let ghost us = uints_of(xs@);
                let m = xs.len();
                let mut j: usize = 0;
                while j < m
                    invariant
                        m == xs.len(),
                        j <= m,
                        us == uints_of(xs@),
                        tails_v@ == tails(ms, i as int) + be_bytes(us.len(), 32) + uint_words(
                            us, j as int),
                    decreases m - j,
                {
                    let u = xs[j];
                    proof {
                        assert(us[j as int] == xs@[j as int].value());
                        lemma_u128_fits(u.lo);
                        lemma_u128_fits(u.hi);
                        lemma_be_bytes_split(u.hi as nat, u.lo as nat, 16, 16);
                    }
                    push_be_bytes(&mut tails_v, u.hi, 16);
                    push_be_bytes(&mut tails_v, u.lo, 16);
                    proof {
                        assert(tails_v@ =~= tails(ms, i as int) + be_bytes(us.len(), 32)
                            + (uint_words(us, j as int) + be_bytes(us[j as int], 32)));
                    }
                    j += 1;
                }
                proof {
                    assert(head_word(ms, i as int) == be_bytes(32 * ms.len() + tails_len(
                        ms, i as int), 32));
                    assert(off as nat == 32 * ms.len() + tails_len(ms, i as int));
                    assert(tail_bytes(ms[i as int]) == be_bytes(us.len(), 32) + uint_words(
                        us, us.len() as int));
                    assert(tails_v@ =~= tails(ms, i as int) + (be_bytes(us.len(), 32)
                        + uint_words(us, us.len() as int)));
                }
            },
        }
        i += 1;
    }
    let mut out = heads_v;
    push_bytes(&mut out, &tails_v);
    proof {
        assert(ms.len() == n as int);
    }
    out
}

/// The `k` element values of a `uint256[]` whose words start at `p`.
pub open spec fn dec_uints(b: Seq<u8>, p: int, k: nat) -> Seq<nat>
    decreases k,
{
    if k == 0 {
        Seq::empty()
    } else {
        dec_uints(b, p, (k - 1) as nat).push(be_val(b.subrange(p + 32 * (k - 1), p + 32 * k)))
    }
}

/// Decodes the value in head slot `i` of `b` with the tail cursor at `tp`;
/// yields the value and the new cursor. Strict: an offset must point exactly
/// at the cursor, and unused prefix and padding bytes must be zero, so no
/// two tuples decode from one encoding.
pub open spec fn dec_one(t: ParamType, b: Seq<u8>, i: int, tp: int) -> Option<(ValueModel, int)> {
    let hp = 32 * i;
    match t {
        ParamType::Address => if b.subrange(hp, hp + 12) == zeros(12) {
            Some((ValueModel::Address(b.subrange(hp + 12, hp + 32)), tp))
        } else {
            None
        },
        ParamType::Uint => Some((ValueModel::Uint(be_val(b.subrange(hp, hp + 32))), tp)),
        ParamType::Bool => if b.subrange(hp, hp + 31) == zeros(31) && b[hp + 31] <= 1 {
            Some((ValueModel::Bool(b[hp + 31] == 1), tp))
        } else {
            None
        },
        ParamType::Str => {
            let off = be_val(b.subrange(hp, hp + 32));
            let l = be_val(b.subrange(tp, tp + 32)) as int;
            if off == tp && tp + 32 <= b.len() && tp + 32 + l + pad_len(l as nat) <= b.len()
                && b.subrange(tp + 32 + l, tp + 32 + l + pad_len(l as nat)) == zeros(
                pad_len(l as nat),
            ) {
                Some(
                    (
                        ValueModel::Str(b.subrange(tp + 32, tp + 32 + l)),
                        tp + 32 + l + pad_len(l as nat),
                    ),
                )
            } else {
                None
            }
        },
        ParamType::UintArray => {
            let off = be_val(b.subrange(hp, hp + 32));
            let k = be_val(b.subrange(tp, tp + 32));
            if off == tp && tp + 32 <= b.len() && tp + 32 + 32 * k <= b.len() {
                Some((ValueModel::UintArray(dec_uints(b, tp + 32, k)), tp + 32 + 32 * k))
            } else {
                None
            }
        },
    }
}

/// Decodes head slots `i ..` of `b` against the remaining types, the tail
/// cursor standing at `tp`; at the end the cursor must have consumed `b`
/// exactly.
pub open spec fn dec_loop(ts: Seq<ParamType>, b: Seq<u8>, i: int, tp: int) -> Option<
    Seq<ValueModel>,
>
    decreases ts.len() - i,
{
    if i >= ts.len() {
        if tp == b.len() {
            Some(Seq::empty())
        } else {
            None
        }
    } else if 32 * i + 32 <= b.len() {
        match dec_one(ts[i], b, i, tp) {
            Some(step) => match dec_loop(ts, b, i + 1, step.1) {
                Some(rest) => Some(seq![step.0] + rest),
                None => None,
            },
            None => None,
        }
    } else {
        None
    }
}

/// The decoding of `b` as a tuple of the types `ts`: `None` when `b` is not
/// the strict encoding of any such tuple.
pub open spec fn dec_tuple(ts: Seq<ParamType>, b: Seq<u8>) -> Option<Seq<ValueModel>> {
    dec_loop(ts, b, 0, 32 * ts.len() as int)
}

/// Reads the 32-byte word at `p` as a value, when it fits 128 bits.
fn read_word_val(b: &Vec<u8>, p: usize) -> (r: Option<u128>)
    requires
        p + 32 <= b.len(),
    ensures
        match r {
            Some(v) => v as nat == be_val(b@.subrange(p as int, p + 32)),
            None => be_val(b@.subrange(p as int, p + 32)) >= pow256(16),
        },
{
    proof {
        let w = b@.subrange(p as int, p + 32);
        assert(w =~= b@.subrange(p as int, p + 16) + b@.subrange(p + 16, p + 32));
        lemma_be_val_append(b@.subrange(p as int, p + 16), b@.subrange(p + 16, p + 32));
        crate::bytes::lemma_be_val_zero(b@.subrange(p as int, p + 16));
        lemma_pow256_pos(16);
    }
    if is_zeros(b, p, p + 16) {
        proof {
            assert(b@.subrange(p as int, p + 16) =~= zeros(16));
            assert(be_val(b@.subrange(p as int, p + 16)) == 0);
            assert(be_val(b@.subrange(p as int, p + 32)) == 0 * pow256(16) + be_val(b@.subrange(
                p + 16, p + 32)));
        }
        Some(be_slice_val(b, p + 16, p + 32))
    } else {
        proof {
            let hv = be_val(b@.subrange(p as int, p + 16));
            assert(hv * pow256(16) >= pow256(16)) by (nonlinear_arith)
                requires
                    hv >= 1,
                    pow256(16) >= 1,
            ;
        }
        None
    }
}

/// Decodes `b` as a tuple of the types `ts`; `None` exactly when `b` is not
/// a strict encoding of such a tuple. A zeroed result is returned only for
/// the encoding of zero, never as a stand-in for malformed bytes.
pub fn decode_values(ts: &Vec<ParamType>, b: &Vec<u8>) -> (r: Option<Vec<Value>>)
    ensures
        match r {
            Some(vs) => {
                &&& dec_tuple(ts@, b@) == Some(models_of(vs@))
                &&& values_wf(vs@)
            },
            None => dec_tuple(ts@, b@) is None,
        },
{
    let n = ts.len();
    let blen = b.len();
    let mut out: Vec<Value> = Vec::new();
    let mut tp: u128 = 32 * (n as u128);
    let mut i: usize = 0;
    proof {
        assert(models_of(out@) =~= Seq::<ValueModel>::empty());
        match dec_loop(ts@, b@, 0, tp as int) {
            Some(rest) => {
                assert(models_of(out@) + rest =~= rest);
            },
            None => {},
        }
    }
    while i < n
        invariant
            n == ts.len(),
            blen == b.len(),
            i <= n,
            tp == 32 * (n as u128) || tp <= 0xFFFFFFFFFFFFFFFFu128,
            values_wf(out@),
            dec_tuple(ts@, b@) == (match dec_loop(ts@, b@, i as int, tp as int) {
                Some(rest) => Some(models_of(out@) + rest),
                None => None::<Seq<ValueModel>>,
            }),
        decreases n - i,
    {
        let ghost out0 = out@;
        let ghost tp0 = tp as int;
        if 32 * (i as u128) + 32 > blen as u128 {
            proof {
                assert(dec_loop(ts@, b@, i as int, tp as int) is None);
            }
            return None;
        }
        let hp: usize = 32 * i;
        let t = ts[i];
        match t {
            ParamType::Address => {
                if !is_zeros(b, hp, hp + 12) {
                    proof {
                        assert(dec_one(ts@[i as int], b@, i as int, tp0) is None);
                    }
                    return None;
                }
                let addr_bytes = copy_range(b, hp + 12, hp + 32);
                out.push(Value::Address(Address { bytes: addr_bytes }));
                proof {
                    assert(dec_one(ts@[i as int], b@, i as int, tp0) == Some(
                        (ValueModel::Address(b@.subrange(hp + 12, hp as int + 32)), tp0)));
                }
            },
            ParamType::Uint => {
                let hi = be_slice_val(b, hp, hp + 16);
                let lo = be_slice_val(b, hp + 16, hp + 32);
                let u = Uint256 { hi, lo };
                out.push(Value::Uint(u));
                proof {
                    let w = b@.subrange(hp as int, hp as int + 32);
                    assert(w =~= b@.subrange(hp as int, hp + 16) + b@.subrange(hp + 16, hp
                        + 32));
                    lemma_be_val_append(b@.subrange(hp as int, hp + 16), b@.subrange(hp + 16, hp
                        + 32));
                    assert(u.value() == be_val(w));
                    assert(dec_one(ts@[i as int], b@, i as int, tp0) == Some(
                        (ValueModel::Uint(be_val(w)), tp0)));
                }
            },
            ParamType::Bool => {
                if !is_zeros(b, hp, hp + 31) {
                    proof {
                        assert(dec_one(ts@[i as int], b@, i as int, tp0) is None);
                    }
                    return None;
                }
                let byte = b[hp + 31];
                if byte > 1 {
                    proof {
                        assert(dec_one(ts@[i as int], b@, i as int, tp0) is None);
                    }
                    return None;
                }
                out.push(Value::Bool(byte == 1));
                proof {
                    assert(dec_one(ts@[i as int], b@, i as int, tp0) == Some(
                        (ValueModel::Bool(b@[hp as int + 31] == 1), tp0)));
                }
            },
            ParamType::Str => {
                proof {
                    lemma_u128_fits(tp);
                }
                let offo = read_word_val(b, hp);
                let off = match offo {
                    None => {
                        proof {
                            assert(dec_one(ts@[i as int], b@, i as int, tp0) is None);
                        }
                        return None;
                    },
                    Some(v) => v,
                };
                if off != tp {
                    proof {
                        assert(dec_one(ts@[i as int], b@, i as int, tp0) is None);
                    }
                    return None;
                }
                if tp > (blen - 32) as u128 {
                    proof {
                        assert(tp0 + 32 > b@.len());
                        assert(dec_one(ts@[i as int], b@, i as int, tp0) is None);
                    }
                    return None;
                }
                let tps = tp as usize;
                let lw = read_word_val(b, tps);
                let l = match lw {
                    None => {
                        proof {
                            assert(pow256(16) == 0x100000000000000000000000000000000) by {
                                reveal_with_fuel(pow256, 17);
                            }
                            assert(dec_one(ts@[i as int], b@, i as int, tp0) is None);
                        }
                        return None;
                    },
                    Some(v) => v,
                };
                let avail = (blen as u128) - (tp + 32);
                if l > avail {
                    proof {
                        assert(dec_one(ts@[i as int], b@, i as int, tp0) is None);
                    }
                    return None;
                }
                let pad = (32 - (l % 32)) % 32;
                proof {
                    assert(pad as nat == pad_len(l as nat));
                }
                if pad > avail - l {
                    proof {
                        assert(dec_one(ts@[i as int], b@, i as int, tp0) is None);
                    }
                    return None;
                }
                let cstart = tps + 32;
                let cend = cstart + (l as usize);
                let pend = cend + (pad as usize);
                if !is_zeros(b, cend, pend) {
                    proof {
                        assert(dec_one(ts@[i as int], b@, i as int, tp0) is None);
                    }
                    return None;
                }
                let content = copy_range(b, cstart, cend);
                out.push(Value::Str(content));
                tp = tp + 32 + l + pad;
                proof {
                    assert(dec_one(ts@[i as int], b@, i as int, tp0) == Some(
                        (ValueModel::Str(b@.subrange(tp0 + 32, tp0 + 32 + l as int)),
                        tp as int)));
                }
            },
            ParamType::UintArray => {
                proof {
                    lemma_u128_fits(tp);
                }
                let offo = read_word_val(b, hp);
                let off = match offo {
                    None => {
                        proof {
                            assert(dec_one(ts@[i as int], b@, i as int, tp0) is None);
                        }
                        return None;
                    },
                    Some(v) => v,
                };
                if off != tp {
                    proof {
                        assert(dec_one(ts@[i as int], b@, i as int, tp0) is None);
                    }
                    return None;
                }
                if tp > (blen - 32) as u128 {
                    proof {
                        assert(tp0 + 32 > b@.len());
                        assert(dec_one(ts@[i as int], b@, i as int, tp0) is None);
                    }
                    return None;
                }
                let tps = tp as usize;
                let kw = read_word_val(b, tps);
                let k = match kw {
                    None => {
                        proof {
                            assert(pow256(16) == 0x100000000000000000000000000000000) by {
                                reveal_with_fuel(pow256, 17);
                            }
                            let kk = be_val(b@.subrange(tp0, tp0 + 32));
                            assert(32 * kk >= kk) by (nonlinear_arith);
                            assert(dec_one(ts@[i as int], b@, i as int, tp0) is None);
                        }
                        return None;
                    },
                    Some(v) => v,
                };
                let avail = (blen as u128) - (tp + 32);
                if k > avail / 32 {
                    proof {
                        vstd::arithmetic::div_mod::lemma_fundamental_div_mod(avail as int, 32);
                        assert(32 * (k as int) > avail as int);
                        assert(dec_one(ts@[i as int], b@, i as int, tp0) is None);
                    }
                    return None;
                }
                proof {
                    vstd::arithmetic::div_mod::lemma_fundamental_div_mod(avail as int, 32);
                    assert(32 * (k as int) <= avail as int);
                }
                let kcount = k as usize;
                let estart = tps + 32;
                let mut xs: Vec<Uint256> = Vec::new();
                let mut j: usize = 0;
                proof {
                    assert(uints_of(xs@) =~= dec_uints(b@, estart as int, 0));
                }
                while j < kcount
                    invariant
                        blen == b.len(),
                        j <= kcount,
                        estart + 32 * (kcount as int) <= blen as int,
                        uints_of(xs@) == dec_uints(b@, estart as int, j as nat),
                    decreases kcount - j,
                {
                    let ep = estart + 32 * j;
                    let hi = be_slice_val(b, ep, ep + 16);
                    let lo = be_slice_val(b, ep + 16, ep + 32);
                    let ghost xs0 = xs@;
                    let u = Uint256 { hi, lo };
                    xs.push(u);
                    proof {
                        let w = b@.subrange(ep as int, ep + 32);
                        assert(w =~= b@.subrange(ep as int, ep + 16) + b@.subrange(ep + 16, ep
                            + 32));
                        lemma_be_val_append(b@.subrange(ep as int, ep + 16), b@.subrange(ep
                            + 16, ep + 32));
                        assert(u.value() == be_val(w));
                        assert(uints_of(xs@) =~= uints_of(xs0).push(u.value()));
                        assert(dec_uints(b@, estart as int, (j + 1) as nat) == dec_uints(b@,
                            estart as int, j as nat).push(be_val(b@.subrange(estart + 32 * (
                        j as int), estart + 32 * (j as int) + 32))));
                    }
                    j += 1;
                }
                out.push(Value::UintArray(xs));
                tp = tp + 32 + 32 * k;
                proof {
                    assert(dec_one(ts@[i as int], b@, i as int, tp0) == Some(
                        (ValueModel::UintArray(dec_uints(b@, tp0 + 32, k as nat)), tp as int)));
                }
            },
        }
        proof {
            let v = out@[out@.len() - 1];
            assert(out@ =~= out0.push(v));
            assert(models_of(out@) =~= models_of(out0).push(v@));
            assert(value_wf(v));
            assert forall|q: int| 0 <= q < out@.len() implies value_wf(out@[q]) by {
                if q < out0.len() {
                    assert(value_wf(out0[q]));
                }
            }
            assert(dec_loop(ts@, b@, i as int, tp0) == (match dec_loop(ts@, b@, i + 1,
                tp as int) {
                Some(rest) => Some(seq![v@] + rest),
                None => None::<Seq<ValueModel>>,
            }));
            match dec_loop(ts@, b@, i + 1, tp as int) {
                Some(rest) => {
                    assert(models_of(out0) + (seq![v@] + rest) =~= models_of(out@) + rest);
                },
                None => {},
            }
        }
        i += 1;
    }
    proof {
        if tp as int == blen as int {
            assert(dec_loop(ts@, b@, n as int, tp as int) == Some(Seq::<ValueModel>::empty()));
            assert(models_of(out@) + Seq::<ValueModel>::empty() =~= models_of(out@));
        }
    }
    if tp == blen as u128 {
        Some(out)
    } else {
        None
    }
}

proof fn lemma_static_word_len(m: ValueModel, t: ParamType)
    requires
        model_matches(m, t),
        !is_dynamic(t),
    ensures
        static_word(m).len() == 32,
{
    match m {
        ValueModel::Uint(v) => {
            lemma_be_bytes_len(v, 32);
        },
        _ => {},
    }
}

proof fn lemma_head_word_len(ts: Seq<ParamType>, ms: Seq<ValueModel>, i: int)
    requires
        models_match(ts, ms),
        0 <= i < ms.len(),
    ensures
        head_word(ms, i).len() == 32,
{
    if model_is_dynamic(ms[i]) {
        lemma_be_bytes_len(32 * ms.len() + tails_len(ms, i), 32);
    } else {
        lemma_static_word_len(ms[i], ts[i]);
    }
}

proof fn lemma_heads_len(ts: Seq<ParamType>, ms: Seq<ValueModel>, k: int)
    requires
        models_match(ts, ms),
        0 <= k <= ms.len(),
    ensures
        heads(ms, k).len() == 32 * k,
    decreases k,
{
    if k > 0 {
        lemma_heads_len(ts, ms, k - 1);
        lemma_head_word_len(ts, ms, k - 1);
    }
}

proof fn lemma_uint_words_len(xs: Seq<nat>, k: int)
    requires
        0 <= k,
    ensures
        uint_words(xs, k).len() == 32 * k,
    decreases k,
{
    if k > 0 {
        lemma_uint_words_len(xs, k - 1);
        lemma_be_bytes_len(xs[k - 1], 32);
    }
}

proof fn lemma_tail_bytes_len(m: ValueModel, t: ParamType)
    requires
        model_matches(m, t),
    ensures
        tail_bytes(m).len() == match m {
            ValueModel::Str(s) => 32 + s.len() + pad_len(s.len()),
            ValueModel::UintArray(xs) => 32 + 32 * xs.len(),
            _ => 0,
        },
        tail_bytes(m).len() <= 32 + 32 * pow256(8),
{
    match m {
        ValueModel::Str(s) => {
            lemma_be_bytes_len(s.len(), 32);
            lemma_pow256_pos(8);
            assert(s.len() + 31 < pow256(8) + 31);
            assert(pow256(8) + 63 <= 32 + 32 * pow256(8)) by (nonlinear_arith)
                requires
                    pow256(8) >= 2,
            ;
        },
        ValueModel::UintArray(xs) => {
            lemma_be_bytes_len(xs.len(), 32);
            lemma_uint_words_len(xs, xs.len() as int);
            assert(32 * xs.len() <= 32 * pow256(8)) by (nonlinear_arith)
                requires
                    xs.len() <= pow256(8),
            ;
        },
        _ => {},
    }
}

proof fn lemma_tails_is_tails_len(ts: Seq<ParamType>, ms: Seq<ValueModel>, k: int)
    requires
        0 <= k,
    ensures
        tails(ms, k).len() == tails_len(ms, k),
    decreases k,
{
    if k > 0 {
        lemma_tails_is_tails_len(ts, ms, k - 1);
    }
}

/// Every head offset of a matching tuple denotes faithfully in 32 bytes.
proof fn lemma_offset_bound(ts: Seq<ParamType>, ms: Seq<ValueModel>, i: int)
    requires
        models_match(ts, ms),
        0 <= i <= ms.len(),
    ensures
        tails_len(ms, i) <= i * (32 + 32 * pow256(8)),
        32 * ms.len() + tails_len(ms, i) < pow256(32),
    decreases i,
{
    let b = 32 + 32 * pow256(8);
    lemma_pow256_pos(8);
    if i == 0 {
        assert(0 * b == 0) by (nonlinear_arith);
    } else {
        lemma_offset_bound(ts, ms, i - 1);
        lemma_tail_bytes_len(ms[i - 1], ts[i - 1]);
        assert((i - 1) * b + b == i * b) by (nonlinear_arith);
    }
    let n = ms.len();
    assert(tails_len(ms, i) <= n * b) by (nonlinear_arith)
        requires
            tails_len(ms, i) <= i * b,
            0 <= i <= n,
            b >= 0,
    ;
    assert(32 * n + n * b <= n * (32 + b)) by (nonlinear_arith);
    assert(n * (32 + b) < pow256(8) * (32 + b)) by (nonlinear_arith)
        requires
            n < pow256(8),
            32 + b > 0,
    ;
    assert(pow256(8) * (64 + 32 * pow256(8)) == 64 * pow256(8) + 32 * (pow256(8) * pow256(
        8))) by (nonlinear_arith);
    lemma_pow256_add(8, 8);
    lemma_pow256_le(8, 16);
    assert(64 * pow256(8) + 32 * pow256(16) < 256 * pow256(16)) by (nonlinear_arith)
        requires
            pow256(8) <= pow256(16),
            pow256(8) >= 1,
    ;
    assert(256 * pow256(16) == pow256(17));
    lemma_pow256_le(17, 32);
}

/// Reading head slot `j` of the concatenated heads yields its head word.
proof fn lemma_heads_index(ts: Seq<ParamType>, ms: Seq<ValueModel>, j: int, k: int)
    requires
        models_match(ts, ms),
        0 <= j < k <= ms.len(),
    ensures
        heads(ms, k).subrange(32 * j, 32 * j + 32) == head_word(ms, j),
    decreases k,
{
    lemma_heads_len(ts, ms, k - 1);
    lemma_head_word_len(ts, ms, k - 1);
    if j == k - 1 {
        assert(heads(ms, k).subrange(32 * j, 32 * j + 32) =~= head_word(ms, j));
    } else {
        lemma_heads_index(ts, ms, j, k - 1);
        lemma_head_word_len(ts, ms, j);
        assert(heads(ms, k).subrange(32 * j, 32 * j + 32) =~= heads(ms, k - 1).subrange(32 * j, 32
            * j + 32));
    }
}

/// Reading element slot `j` of the concatenated element words yields its word.
proof fn lemma_uint_words_index(xs: Seq<nat>, j: int, k: int)
    requires
        0 <= j < k,
    ensures
        uint_words(xs, k).subrange(32 * j, 32 * j + 32) == be_bytes(xs[j], 32),
    decreases k,
{
    lemma_uint_words_len(xs, k - 1);
    lemma_be_bytes_len(xs[k - 1], 32);
    if j == k - 1 {
        assert(uint_words(xs, k).subrange(32 * j, 32 * j + 32) =~= be_bytes(xs[j], 32));
    } else {
        lemma_uint_words_index(xs, j, k - 1);
        lemma_be_bytes_len(xs[j], 32);
        assert(uint_words(xs, k).subrange(32 * j, 32 * j + 32) =~= uint_words(xs, k - 1).subrange(
            32 * j, 32 * j + 32));
    }
}

/// The slice of the concatenated tails belonging to value `j` is its tail.
proof fn lemma_tails_slice(ts: Seq<ParamType>, ms: Seq<ValueModel>, j: int, k: int)
    requires
        models_match(ts, ms),
        0 <= j < k <= ms.len(),
    ensures
        tails_len(ms, j) + tail_bytes(ms[j]).len() <= tails_len(ms, k),
        tails(ms, k).subrange(tails_len(ms, j) as int, (tails_len(ms, j) + tail_bytes(
            ms[j]).len()) as int) == tail_bytes(ms[j]),
    decreases k,
{
    lemma_tails_is_tails_len(ts, ms, k - 1);
    if j == k - 1 {
        assert(tails(ms, k).subrange(tails_len(ms, j) as int, (tails_len(ms, j) + tail_bytes(
            ms[j]).len()) as int) =~= tail_bytes(ms[j]));
    } else {
        lemma_tails_slice(ts, ms, j, k - 1);
        assert(tails(ms, k).subrange(tails_len(ms, j) as int, (tails_len(ms, j) + tail_bytes(
            ms[j]).len()) as int) =~= tails(ms, k - 1).subrange(tails_len(ms, j) as int, (
        tails_len(ms, j) + tail_bytes(ms[j]).len()) as int));
    }
}

/// Element words read back as the element values they encode.
proof fn lemma_dec_uints_take(b: Seq<u8>, p: int, xs: Seq<nat>, k: int)
    requires
        0 <= k <= xs.len(),
        forall|j: int| 0 <= j < xs.len() ==> (#[trigger] xs[j]) < pow256(32),
        forall|j: int|
            0 <= j < xs.len() ==> b.subrange(p + 32 * j, p + 32 * j + 32) == be_bytes(
                #[trigger] xs[j], 32),
    ensures
        dec_uints(b, p, k as nat) == xs.take(k),
    decreases k,
{
    if k == 0 {
        assert(dec_uints(b, p, 0) =~= xs.take(0));
    } else {
        lemma_dec_uints_take(b, p, xs, k - 1);
        lemma_be_val_of_be_bytes(xs[k - 1], 32);
        assert(dec_uints(b, p, k as nat) == dec_uints(b, p, (k - 1) as nat).push(be_val(b.subrange(
            p + 32 * (k - 1), p + 32 * k))));
        assert(b.subrange(p + 32 * (k - 1), p + 32 * (k - 1) + 32) == be_bytes(xs[k - 1], 32));
        assert(xs.take(k - 1).push(xs[k - 1]) =~= xs.take(k));
    }
}

/// A slice of head word `i`, read out of the whole encoding.
proof fn lemma_enc_head_slice(ts: Seq<ParamType>, ms: Seq<ValueModel>, i: int, a: int, c: int)
    requires
        models_match(ts, ms),
        0 <= i < ms.len(),
        0 <= a <= c <= 32,
    ensures
        enc_tuple(ms).subrange(32 * i + a, 32 * i + c) == head_word(ms, i).subrange(a, c),
{
    let b = enc_tuple(ms);
    let n = ms.len() as int;
    lemma_heads_len(ts, ms, n);
    lemma_heads_index(ts, ms, i, n);
    lemma_head_word_len(ts, ms, i);
    let hw = head_word(ms, i);
    assert forall|q: int| 0 <= q < c - a implies b[32 * i + a + q] == #[trigger] hw[a + q] by {
        assert(b[32 * i + a + q] == heads(ms, n)[32 * i + a + q]);
        assert(heads(ms, n).subrange(32 * i, 32 * i + 32)[a + q] == heads(ms, n)[32 * i + a + q]);
    }
    assert(b.subrange(32 * i + a, 32 * i + c) =~= hw.subrange(a, c));
}

/// A slice of tail region `i`, read out of the whole encoding.
proof fn lemma_enc_tail_slice(ts: Seq<ParamType>, ms: Seq<ValueModel>, i: int, a: int, c: int)
    requires
        models_match(ts, ms),
        0 <= i < ms.len(),
        0 <= a <= c <= tail_bytes(ms[i]).len(),
    ensures
        32 * ms.len() + tails_len(ms, i) + tail_bytes(ms[i]).len() <= enc_tuple(ms).len(),
        enc_tuple(ms).subrange(
            32 * ms.len() + tails_len(ms, i) + a,
            32 * ms.len() + tails_len(ms, i) + c,
        ) == tail_bytes(ms[i]).subrange(a, c),
{
    let b = enc_tuple(ms);
    let n = ms.len() as int;
    lemma_heads_len(ts, ms, n);
    lemma_tails_is_tails_len(ts, ms, n);
    lemma_tails_slice(ts, ms, i, n);
    let tb = tail_bytes(ms[i]);
    let base = 32 * n + tails_len(ms, i);
    assert forall|q: int| 0 <= q < c - a implies b[base + a + q] == #[trigger] tb[a + q] by {
        assert(b[base + a + q] == tails(ms, n)[tails_len(ms, i) + a + q]);
        assert(tails(ms, n).subrange(tails_len(ms, i) as int, (tails_len(ms, i)
            + tb.len()) as int)[a + q] == tails(ms, n)[tails_len(ms, i) + a + q]);
    }
    assert(b.subrange(base + a, base + c) =~= tb.subrange(a, c));
}

proof fn lemma_dec_loop_enc(ts: Seq<ParamType>, ms: Seq<ValueModel>, i: int)
    requires
        models_match(ts, ms),
        0 <= i <= ms.len(),
    ensures
        dec_loop(ts, enc_tuple(ms), i, (32 * ms.len() + tails_len(ms, i)) as int) == Some(
            ms.skip(i)),
    decreases ms.len() - i,
{
    let b = enc_tuple(ms);
    let n = ms.len() as int;
    lemma_heads_len(ts, ms, n);
    lemma_tails_is_tails_len(ts, ms, n);
    let tp = 32 * n + tails_len(ms, i);
    if i == n {
        assert(tp == b.len());
        assert(ms.skip(i) =~= Seq::<ValueModel>::empty());
    } else {
        lemma_heads_index(ts, ms, i, n);
        lemma_head_word_len(ts, ms, i);
        let hp = 32 * i;
        let hw = head_word(ms, i);
        assert(b.subrange(hp, hp + 32) =~= hw);
        let tl = tail_bytes(ms[i]).len() as int;
        lemma_tail_bytes_len(ms[i], ts[i]);
        lemma_pow256_le(8, 32);
        match ms[i] {
            ValueModel::Address(ab) => {
                lemma_enc_head_slice(ts, ms, i, 0, 12);
                lemma_enc_head_slice(ts, ms, i, 12, 32);
                assert(hw.subrange(0, 12) =~= zeros(12));
                assert(hw.subrange(12, 32) =~= ab);
                assert(dec_one(ts[i], b, i, tp) == Some((ms[i], tp)));
            },
            ValueModel::Uint(v) => {
                assert(b.subrange(hp, hp + 32) == be_bytes(v, 32));
                lemma_be_val_of_be_bytes(v, 32);
                assert(dec_one(ts[i], b, i, tp) == Some((ms[i], tp)));
            },
            ValueModel::Bool(flag) => {
                let bit: u8 = if flag {
                    1
                } else {
                    0
                };
                lemma_enc_head_slice(ts, ms, i, 0, 31);
                assert(hw.subrange(0, 31) =~= zeros(31));
                assert(b[hp + 31] == b.subrange(hp, hp + 32)[31]);
                assert(b[hp + 31] == hw[31]);
                assert(hw[31] == bit);
                assert(dec_one(ts[i], b, i, tp) == Some((ms[i], tp)));
            },
            ValueModel::Str(s) => {
                lemma_offset_bound(ts, ms, i);
                lemma_be_val_of_be_bytes((32 * ms.len() + tails_len(ms, i)) as nat, 32);
                assert(be_val(b.subrange(hp, hp + 32)) == tp);
                lemma_be_bytes_len(s.len(), 32);
                lemma_enc_tail_slice(ts, ms, i, 0, 32);
                lemma_enc_tail_slice(ts, ms, i, 32, 32 + s.len() as int);
                lemma_enc_tail_slice(ts, ms, i, 32 + s.len() as int, tl);
                let tb = tail_bytes(ms[i]);
                assert(tp + tl <= b.len());
                assert(tb.subrange(0, 32) =~= be_bytes(s.len(), 32));
                lemma_be_val_of_be_bytes(s.len(), 32);
                assert(tb.subrange(32, 32 + s.len() as int) =~= s);
                assert(tb.subrange(32 + s.len() as int, tl) =~= zeros(pad_len(s.len())));
                assert(dec_one(ts[i], b, i, tp) == Some((ms[i], tp + tl)));
            },
            ValueModel::UintArray(xs) => {
                lemma_offset_bound(ts, ms, i);
                lemma_be_val_of_be_bytes((32 * ms.len() + tails_len(ms, i)) as nat, 32);
                assert(be_val(b.subrange(hp, hp + 32)) == tp);
                lemma_be_bytes_len(xs.len(), 32);
                lemma_uint_words_len(xs, xs.len() as int);
                lemma_enc_tail_slice(ts, ms, i, 0, 32);
                let tb = tail_bytes(ms[i]);
                assert(tp + tl <= b.len());
                assert(tb.subrange(0, 32) =~= be_bytes(xs.len(), 32));
                lemma_be_val_of_be_bytes(xs.len(), 32);
                assert forall|j: int| 0 <= j < xs.len() implies b.subrange(
                    tp + 32 + 32 * j,
                    tp + 32 + 32 * j + 32,
                ) == be_bytes(#[trigger] xs[j], 32) by {
                    lemma_uint_words_index(xs, j, xs.len() as int);
                    lemma_be_bytes_len(xs[j], 32);
                    lemma_enc_tail_slice(ts, ms, i, 32 + 32 * j, 32 + 32 * j + 32);
                    assert(tb.subrange(32 + 32 * j, 32 + 32 * j + 32) =~= uint_words(
                        xs, xs.len() as int).subrange(32 * j, 32 * j + 32));
                }
                lemma_dec_uints_take(b, tp + 32, xs, xs.len() as int);
                assert(xs.take(xs.len() as int) =~= xs);
                assert(dec_one(ts[i], b, i, tp) == Some((ms[i], tp + tl)));
            },
        }
        lemma_dec_loop_enc(ts, ms, i + 1);
        assert(seq![ms[i]] + ms.skip(i + 1) =~= ms.skip(i));
    }
}

/// The head words of values `i ..< k`.
pub open spec fn heads_seg(ms: Seq<ValueModel>, i: int, k: int) -> Seq<u8>
    decreases k - i,
{
    if i >= k {
        Seq::empty()
    } else {
        head_word(ms, i) + heads_seg(ms, i + 1, k)
    }
}

/// The tail regions of values `i ..< k`.
pub open spec fn tails_seg(ms: Seq<ValueModel>, i: int, k: int) -> Seq<u8>
    decreases k - i,
{
    if i >= k {
        Seq::empty()
    } else {
        tail_bytes(ms[i]) + tails_seg(ms, i + 1, k)
    }
}

proof fn lemma_seg_last(ms: Seq<ValueModel>, i: int, k: int)
    requires
        i < k,
    ensures
        heads_seg(ms, i, k) == heads_seg(ms, i, k - 1) + head_word(ms, k - 1),
        tails_seg(ms, i, k) == tails_seg(ms, i, k - 1) + tail_bytes(ms[k - 1]),
    decreases k - i,
{
    if i == k - 1 {
        assert(heads_seg(ms, i + 1, k) =~= Seq::<u8>::empty());
        assert(heads_seg(ms, i, k - 1) =~= Seq::<u8>::empty());
        assert(tails_seg(ms, i + 1, k) =~= Seq::<u8>::empty());
        assert(tails_seg(ms, i, k - 1) =~= Seq::<u8>::empty());
        assert(heads_seg(ms, i, k) =~= heads_seg(ms, i, k - 1) + head_word(ms, k - 1));
        assert(tails_seg(ms, i, k) =~= tails_seg(ms, i, k - 1) + tail_bytes(ms[k - 1]));
    } else {
        lemma_seg_last(ms, i + 1, k);
        assert(head_word(ms, i) + (heads_seg(ms, i + 1, k - 1) + head_word(ms, k - 1))
            =~= (head_word(ms, i) + heads_seg(ms, i + 1, k - 1)) + head_word(ms, k - 1));
        assert(tail_bytes(ms[i]) + (tails_seg(ms, i + 1, k - 1) + tail_bytes(ms[k - 1]))
            =~= (tail_bytes(ms[i]) + tails_seg(ms, i + 1, k - 1)) + tail_bytes(ms[k - 1]));
    }
}

proof fn lemma_seg_is_whole(ms: Seq<ValueModel>, k: int)
    requires
        0 <= k,
    ensures
        heads_seg(ms, 0, k) == heads(ms, k),
        tails_seg(ms, 0, k) == tails(ms, k),
    decreases k,
{
    if k > 0 {
        lemma_seg_is_whole(ms, k - 1);
        lemma_seg_last(ms, 0, k);
    }
}

proof fn lemma_dec_loop_len(ts: Seq<ParamType>, b: Seq<u8>, i: int, tp: int)
    requires
        0 <= i <= ts.len(),
        dec_loop(ts, b, i, tp) is Some,
    ensures
        dec_loop(ts, b, i, tp) matches Some(rest) && rest.len() == ts.len() - i,
    decreases ts.len() - i,
{
    if i < ts.len() {
        match dec_one(ts[i], b, i, tp) {
            Some(step) => {
                lemma_dec_loop_len(ts, b, i + 1, step.1);
            },
            None => {},
        }
    }
}

/// Element words read out of a successful array decoding reassemble the
/// very bytes they were read from.
proof fn lemma_uint_words_of_dec(b: Seq<u8>, p: int, k: nat)
    requires
        0 <= p,
        p + 32 * k <= b.len(),
    ensures
        dec_uints(b, p, k).len() == k,
        uint_words(dec_uints(b, p, k), k as int) == b.subrange(p, p + 32 * k),
    decreases k,
{
    if k == 0 {
        assert(b.subrange(p, p) =~= Seq::<u8>::empty());
    } else {
        lemma_uint_words_of_dec(b, p, (k - 1) as nat);
        let prev = dec_uints(b, p, (k - 1) as nat);
        let cur = dec_uints(b, p, k);
        let w = b.subrange(p + 32 * (k - 1), p + 32 * k);
        crate::bytes::lemma_be_bytes_of_be_val(w);
        assert forall|j: int| 0 <= j < k - 1 implies cur[j] == prev[j] by {}
        assert(uint_words(cur, k as int) == uint_words(cur, k - 1) + be_bytes(cur[k - 1], 32));
        lemma_uint_words_same(prev, cur, k - 1);
        assert(b.subrange(p, p + 32 * (k - 1)) + w =~= b.subrange(p, p + 32 * k));
    }
}

/// `uint_words` reads only the first `k` elements.
proof fn lemma_uint_words_same(xs: Seq<nat>, ys: Seq<nat>, k: int)
    requires
        forall|j: int| 0 <= j < k ==> xs[j] == #[trigger] ys[j],
    ensures
        uint_words(xs, k) == uint_words(ys, k),
    decreases k,
{
    if k > 0 {
        lemma_uint_words_same(xs, ys, k - 1);
    }
}

proof fn lemma_dec_loop_sound(ts: Seq<ParamType>, b: Seq<u8>, i: int, tp: int, full: Seq<
    ValueModel,
>)
    requires
        0 <= i <= ts.len(),
        ts.len() == full.len(),
        dec_loop(ts, b, i, tp) == Some(full.skip(i)),
        tp == 32 * ts.len() + tails_len(full, i),
    ensures
        32 * ts.len() <= tp <= b.len(),
        b.subrange(32 * i, 32 * ts.len() as int) == heads_seg(full, i, ts.len() as int),
        b.subrange(tp, b.len() as int) == tails_seg(full, i, ts.len() as int),
    decreases ts.len() - i,
{
    let n = ts.len() as int;
    if i == n {
        assert(tp == b.len());
        assert(b.subrange(32 * n, 32 * n) =~= heads_seg(full, n, n));
        assert(b.subrange(tp, b.len() as int) =~= tails_seg(full, n, n));
    } else {
        let step = dec_one(ts[i], b, i, tp);
        let m0 = full[i];
        let hp = 32 * i;
        let w = b.subrange(hp, hp + 32);
        match step {
            Some(sp) => {
                let rest2 = dec_loop(ts, b, i + 1, sp.1);
                match rest2 {
                    Some(r2) => {
                        assert(seq![sp.0] + r2 == full.skip(i));
                        assert(sp.0 == (seq![sp.0] + r2)[0]);
                        assert(full.skip(i)[0] == full[i]);
                        assert((seq![sp.0] + r2).skip(1) =~= r2);
                        assert(full.skip(i).skip(1) =~= full.skip(i + 1));
                        assert(r2 == full.skip(i + 1));
                        let tp2 = sp.1;
                        let tb = tail_bytes(m0);
                        match ts[i] {
                            ParamType::Address => {
                                assert(tp2 == tp && tb =~= Seq::<u8>::empty());
                                assert(head_word(full, i) =~= w);
                            },
                            ParamType::Uint => {
                                assert(tp2 == tp && tb =~= Seq::<u8>::empty());
                                crate::bytes::lemma_be_bytes_of_be_val(w);
                                assert(head_word(full, i) == w);
                            },
                            ParamType::Bool => {
                                assert(tp2 == tp && tb =~= Seq::<u8>::empty());
                                assert(head_word(full, i) =~= w);
                            },
                            ParamType::Str => {
                                let lw = b.subrange(tp, tp + 32);
                                let l = be_val(lw) as int;
                                let content = b.subrange(tp + 32, tp + 32 + l);
                                assert(m0 == ValueModel::Str(content));
                                crate::bytes::lemma_be_bytes_of_be_val(w);
                                crate::bytes::lemma_be_bytes_of_be_val(lw);
                                assert(head_word(full, i) == be_bytes(tp as nat, 32));
                                assert(head_word(full, i) == w);
                                assert(content.len() == l);
                                assert(tb == be_bytes(l as nat, 32) + content + zeros(
                                    pad_len(l as nat)));
                                assert(b.subrange(tp + 32 + l, tp2) == zeros(pad_len(l as nat)));
                                assert(b.subrange(tp, tp2) =~= lw + content + b.subrange(
                                    tp + 32 + l, tp2));
                                assert(tb =~= lw + content + b.subrange(tp + 32 + l, tp2));
                                assert(tb.len() == tp2 - tp);
                            },
                            ParamType::UintArray => {
                                let kw = b.subrange(tp, tp + 32);
                                let k = be_val(kw);
                                assert(m0 == ValueModel::UintArray(dec_uints(b, tp + 32, k)));
                                crate::bytes::lemma_be_bytes_of_be_val(w);
                                crate::bytes::lemma_be_bytes_of_be_val(kw);
                                assert(head_word(full, i) == be_bytes(tp as nat, 32));
                                assert(head_word(full, i) == w);
                                lemma_uint_words_of_dec(b, tp + 32, k);
                                assert(tb == be_bytes(k, 32) + uint_words(dec_uints(b, tp + 32, k),
                                    k as int));
                                assert(tb =~= kw + b.subrange(tp + 32, tp + 32 + 32 * k));
                                assert(tb.len() == tp2 - tp);
                            },
                        }
                        assert(tails_len(full, i + 1) == tails_len(full, i) + tb.len());
                        assert(tp2 == 32 * n + tails_len(full, i + 1));
                        lemma_dec_loop_sound(ts, b, i + 1, tp2, full);
                        assert(b.subrange(hp, 32 * n) =~= b.subrange(hp, hp + 32) + b.subrange(
                            hp + 32, 32 * n));
                        assert(heads_seg(full, i, n) == head_word(full, i) + heads_seg(
                            full, i + 1, n));
                        assert(b.subrange(tp, b.len() as int) =~= b.subrange(tp, tp2) + b.subrange(
                            tp2, b.len() as int));
                        assert(b.subrange(tp, tp2) =~= tb);
                        assert(tails_seg(full, i, n) == tb + tails_seg(full, i + 1, n));
                    },
                    None => {},
                }
            },
            None => {},
        }
    }
}

/// A successful decoding names its bytes exactly: whatever decodes against
/// the declared types is the canonical encoding of the decoded tuple, so a
/// decoded value is never a reinterpretation of other bytes.
pub proof fn lemma_dec_sound(ts: Seq<ParamType>, b: Seq<u8>)
    ensures
        dec_tuple(ts, b) matches Some(ms) ==> enc_tuple(ms) == b,
{
    let n = ts.len() as int;
    match dec_tuple(ts, b) {
        Some(ms) => {
            lemma_dec_loop_len(ts, b, 0, 32 * n);
            assert(ms.len() == n);
            assert(ms.skip(0) =~= ms);
            lemma_dec_loop_sound(ts, b, 0, 32 * n, ms);
            lemma_seg_is_whole(ms, n);
            assert(b =~= b.subrange(0, 32 * n) + b.subrange(32 * n, b.len() as int));
            assert(enc_tuple(ms) == heads(ms, n) + tails(ms, n));
        },
        None => {},
    }
}

/// Decoding inverts encoding: for any tuple of values matching the declared
/// types, the strict decoding of the tuple's encoding yields those values
/// back — never a default, and never a reinterpretation.
pub proof fn lemma_round_trip(ts: Seq<ParamType>, ms: Seq<ValueModel>)
    requires
        models_match(ts, ms),
    ensures
        dec_tuple(ts, enc_tuple(ms)) == Some(ms),
{
    lemma_dec_loop_enc(ts, ms, 0);
    assert(ms.skip(0) =~= ms);
}

/// A head offset computed at run time fits a `u128`.
proof fn lemma_offset_fits(ms: Seq<ValueModel>, i: int, n: nat)
    requires
        0 <= i,
        n < 0x10000000000000000,
        tails_len(ms, i) < 0x10000000000000000,
    ensures
        32 * n + tails_len(ms, i) < pow256(16),
{
    assert(pow256(16) == 0x100000000000000000000000000000000) by {
        reveal_with_fuel(pow256, 17);
    }
}

/// The Keccak-256 digest of a byte string, as the outside hasher computes it.
pub uninterp spec fn keccak_of(b: Seq<u8>) -> Seq<u8>;

/// Relies on ethers_core::utils::keccak256: the Keccak-256 digest, a pure
/// function of the input bytes, returned as its 32 bytes.
#[verifier::external_body]
fn keccak256(data: &Vec<u8>) -> (r: Vec<u8>)
    ensures
        r@ == keccak_of(data@),
        r@.len() == 32,
{
    ethers_core::utils::keccak256(data.as_slice()).to_vec()
}

/// The four-byte method selector: the leading bytes of the signature's
/// Keccak-256 digest.
pub open spec fn selector_of(sig: Seq<u8>) -> Seq<u8> {
    keccak_of(sig).take(4)
}

/// The canonical textual name of a parameter type, as ASCII bytes.
pub open spec fn ty_name(t: ParamType) -> Seq<u8> {
    match t {
        ParamType::Address => "address"@.map_values(|c: char| c as u8),
        ParamType::Uint => "uint256"@.map_values(|c: char| c as u8),
        ParamType::Bool => "bool"@.map_values(|c: char| c as u8),
        ParamType::Str => "string"@.map_values(|c: char| c as u8),
        ParamType::UintArray => "uint256[]"@.map_values(|c: char| c as u8),
    }
}

/// The comma-separated names of the first `k` parameter types.
pub open spec fn params_sig(ps: Seq<ParamType>, k: int) -> Seq<u8>
    decreases k,
{
    if k <= 0 {
        Seq::empty()
    } else if k == 1 {
        ty_name(ps[0])
    } else {
        params_sig(ps, k - 1) + seq![44u8] + ty_name(ps[k - 1])
    }
}

/// The canonical method signature: `name(type1,type2,...)` as ASCII bytes.
pub open spec fn sig_bytes(name: Seq<u8>, ps: Seq<ParamType>) -> Seq<u8> {
    name + seq![40u8] + params_sig(ps, ps.len() as int) + seq![41u8]
}

/// Appends the canonical name of `t` to `out`.
fn push_ty_name(out: &mut Vec<u8>, t: ParamType)
    ensures
        final(out)@ == old(out)@ + ty_name(t),
{
    let s: &'static str = match t {
        ParamType::Address => "address",
        ParamType::Uint => "uint256",
        ParamType::Bool => "bool",
        ParamType::Str => "string",
        ParamType::UintArray => "uint256[]",
    };
    let v = ascii_bytes(s);
    push_bytes(out, &v);
}

/// The low byte of each character of a string, in order; for the ASCII
/// literals this crate renders, exactly the string's bytes.
pub(crate) fn ascii_bytes(s: &str) -> (r: Vec<u8>)
    ensures
        r@ == s@.map_values(|c: char| c as u8),
{
    let ghost mapped = s@.map_values(|c: char| c as u8);
    let n = s.unicode_len();
    let mut out: Vec<u8> = Vec::new();
    let mut i: usize = 0;
    while i < n
        invariant
            n == s@.len(),
            i <= n,
            mapped == s@.map_values(|c: char| c as u8),
            out@ == mapped.take(i as int),
        decreases n - i,
    {
        let c = s.get_char(i);
        out.push(#[verifier::truncate] (c as u8));
        proof {
            assert(mapped[i as int] == s@[i as int] as u8);
            assert(out@ =~= mapped.take(i + 1));
        }
        i += 1;
    }
    proof {
        assert(mapped.take(n as int) =~= mapped);
    }
    out
}

/// Builds the canonical signature of a method from its name and parameters.
fn build_signature(name: &Vec<u8>, ps: &Vec<ParamType>) -> (r: Vec<u8>)
    ensures
        r@ == sig_bytes(name@, ps@),
{
    let mut out: Vec<u8> = Vec::new();
    push_bytes(&mut out, name);
    out.push(40u8);
    let n = ps.len();
    let mut i: usize = 0;
    while i < n
        invariant
            n == ps.len(),
            i <= n,
            out@ == name@ + seq![40u8] + params_sig(ps@, i as int),
        decreases n - i,
    {
        if i > 0 {
            out.push(44u8);
            proof {
                assert((name@ + seq![40u8] + params_sig(ps@, i as int)).push(44u8) =~= name@
                    + seq![40u8] + (params_sig(ps@, i as int) + seq![44u8]));
            }
        }
        push_ty_name(&mut out, ps[i]);
        proof {
            if i == 0 {
                assert(out@ =~= name@ + seq![40u8] + params_sig(ps@, 1));
            } else {
                assert(out@ =~= name@ + seq![40u8] + (params_sig(ps@, i as int) + seq![44u8]
                    + ty_name(ps@[i as int])));
            }
        }
        i += 1;
    }
    out.push(41u8);
    proof {
        assert(out@ =~= sig_bytes(name@, ps@));
    }
    out
}

/// One callable method of a contract interface: its name and its declared
/// parameter and return types.
#[derive(Clone, Debug)]
pub struct MethodSig {
    pub name: Vec<u8>,
    pub params: Vec<ParamType>,
    pub returns: Vec<ParamType>,
}

/// A contract's interface: the ordered set of its method signatures.
#[derive(Clone, Debug)]
pub struct Interface {
    pub methods: Vec<MethodSig>,
}

/// A deployed contract: its 20-byte address and its interface.
#[derive(Clone, Debug)]
pub struct ContractDescriptor {
    pub address: Address,
    pub interface: Interface,
}

/// The first method of the given name, if any.
pub open spec fn find_method(methods: Seq<MethodSig>, name: Seq<u8>) -> Option<MethodSig>
    decreases methods.len(),
{
    if methods.len() == 0 {
        None
    } else if methods[0].name@ == name {
        Some(methods[0])
    } else {
        find_method(methods.skip(1), name)
    }
}

fn find_method_idx(iface: &Interface, name: &Vec<u8>) -> (r: Option<usize>)
    ensures
        match r {
            Some(j) => j < iface.methods@.len() && find_method(iface.methods@, name@) == Some(
                iface.methods@[j as int]),
            None => find_method(iface.methods@, name@) is None,
        },
{
    let n = iface.methods.len();
    let mut i: usize = 0;
    proof {
        assert(iface.methods@.skip(0) =~= iface.methods@);
    }
    while i < n
        invariant
            n == iface.methods@.len(),
            i <= n,
            find_method(iface.methods@, name@) == find_method(iface.methods@.skip(i as int), name@),
        decreases n - i,
    {
        if bytes_eq(&iface.methods[i].name, name) {
            proof {
                assert(iface.methods@.skip(i as int)[0] == iface.methods@[i as int]);
            }
            return Some(i);
        }
        proof {
            assert(iface.methods@.skip(i as int).skip(1) =~= iface.methods@.skip(i + 1));
            assert(iface.methods@.skip(i as int)[0] == iface.methods@[i as int]);
        }
        i += 1;
    }
    proof {
        assert(iface.methods@.skip(n as int).len() == 0);
    }
    None
}

/// Whether an argument value belongs to a declared parameter type.
fn value_matches(v: &Value, t: ParamType) -> (r: bool)
    ensures
        r == model_matches(v@, t),
{
    proof {
        assert(pow256(8) == 0x10000000000000000) by {
            reveal_with_fuel(pow256, 9);
        }
    }
    match v {
        Value::Address(a) => t == ParamType::Address && a.bytes.len() == 20,
        Value::Uint(u) => {
            proof {
                crate::types::lemma_uint_fits(*u);
            }
            t == ParamType::Uint
        },
        Value::Bool(_) => t == ParamType::Bool,
        Value::Str(s) => {
            let l = s.len() as u64;
            proof {
                assert(l as nat == s@.len());
                assert(s@.len() < pow256(8));
            }
            t == ParamType::Str
        },
        Value::UintArray(xs) => {
            let l = xs.len() as u64;
            proof {
                assert(l as nat == xs@.len());
                assert(uints_of(xs@).len() < pow256(8));
                assert forall|q: int| 0 <= q < uints_of(xs@).len() implies #[trigger] uints_of(
                    xs@,
                )[q] < pow256(32) by {
                    crate::types::lemma_uint_fits(xs@[q]);
                }
            }
            t == ParamType::UintArray
        },
    }
}

/// Encodes a call to `method` with `args` against the interface: the
/// four-byte selector of the method's canonical signature, then the tuple
/// encoding of the arguments. Fails fast with `EncodingError`, before any
/// network I/O, exactly when the interface has no method of that name or
/// the arguments do not match its declared parameter types.
pub fn encode_call(iface: &Interface, method: &Vec<u8>, args: &Vec<Value>) -> (r: Result<
    Vec<u8>,
    ChainError,
>)
    requires
        values_wf(args@),
    ensures
        r is Ok <==> (find_method(iface.methods@, method@) matches Some(m) && models_match(
            m.params@,
            models_of(args@),
        )),
        r matches Ok(out) ==> (find_method(iface.methods@, method@) matches Some(m) && out@
            == selector_of(sig_bytes(m.name@, m.params@)) + enc_tuple(models_of(args@))),
        r matches Err(e) ==> e is EncodingError,
{
    let j = match find_method_idx(iface, method) {
        None => {
            return Err(ChainError::EncodingError(copy_range(method, 0, method.len())));
        },
        Some(j) => j,
    };
    let m = &iface.methods[j];
    if args.len() != m.params.len() {
        proof {
            assert(models_of(args@).len() != m.params@.len());
        }
        return Err(ChainError::EncodingError(copy_range(method, 0, method.len())));
    }
    let n = args.len();
    let mut i: usize = 0;
    while i < n
        invariant
            n == args.len() == m.params@.len(),
            i <= n,
            j < iface.methods@.len(),
            m == &iface.methods@[j as int],
            find_method(iface.methods@, method@) == Some(iface.methods@[j as int]),
            values_wf(args@),
            forall|q: int|
                0 <= q < i ==> model_matches(#[trigger] models_of(args@)[q], m.params@[q]),
        decreases n - i,
    {
        if !value_matches(&args[i], m.params[i]) {
            proof {
                assert(!model_matches(models_of(args@)[i as int], m.params@[i as int]));
            }
            return Err(ChainError::EncodingError(copy_range(method, 0, method.len())));
        }
        i += 1;
    }
    let n64 = m.params.len() as u64;
    proof {
        assert(pow256(8) == 0x10000000000000000) by {
            reveal_with_fuel(pow256, 9);
        }
        assert(n64 as nat == m.params@.len());
        assert(models_match(m.params@, models_of(args@)));
    }
    let sig = build_signature(&m.name, &m.params);
    let digest = keccak256(&sig);
    let mut out = copy_range(&digest, 0, 4);
    proof {
        assert(digest@.subrange(0, 4) =~= selector_of(sig_bytes(m.name@, m.params@)));
    }
    let enc = encode_values(args);
    push_bytes(&mut out, &enc);
    Ok(out)
}

/// One symbolic operation against a contract: the method, its arguments in
/// order, and whether it mutates chain state. Built fresh per invocation;
/// a mutating call is signed, priced and mined, a read call is evaluated
/// instantly at no gas cost — the flag tells the caller which path to take.
#[derive(Clone, Debug)]
pub struct Call {
    pub method: Vec<u8>,
    pub args: Vec<Value>,
    pub mutating: bool,
}

/// Encodes a call against the interface; the one payload builder for both
/// the read and the write path.
pub fn encode_call_payload(iface: &Interface, call: &Call) -> (r: Result<Vec<u8>, ChainError>)
    requires
        values_wf(call.args@),
    ensures
        r is Ok <==> (find_method(iface.methods@, call.method@) matches Some(m) && models_match(
            m.params@,
            models_of(call.args@),
        )),
        r matches Ok(out) ==> (find_method(iface.methods@, call.method@) matches Some(m) && out@
            == selector_of(sig_bytes(m.name@, m.params@)) + enc_tuple(models_of(call.args@))),
        r matches Err(e) ==> e is EncodingError,
{
    encode_call(iface, &call.method, &call.args)
}

/// Decodes a method's raw return bytes against its declared return types.
/// Fails with `DecodingError` — never a defaulted or zeroed stand-in —
/// exactly when the bytes are not a strict encoding of the declared shape.
pub fn decode_return(m: &MethodSig, data: &Vec<u8>) -> (r: Result<Vec<Value>, ChainError>)
    ensures
        match r {
            Ok(vs) => {
                &&& dec_tuple(m.returns@, data@) == Some(models_of(vs@))
                &&& values_wf(vs@)
            },
            Err(e) => e is DecodingError && dec_tuple(m.returns@, data@) is None,
        },
{
    match decode_values(&m.returns, data) {
        Some(vs) => Ok(vs),
        None => Err(ChainError::DecodingError(copy_range(&m.name, 0, m.name.len()))),
    }
}

} // verus!
