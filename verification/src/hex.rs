//! Hexadecimal text for addresses, hashes and payloads: canonical lowercase
//! rendering, and parsing that tolerates either letter case.

use vstd::prelude::*;

verus! {

/// The lowercase hex digit character of a value below 16.
pub open spec fn hex_digit(d: nat) -> u8 {
    if d < 10 {
        (48 + d) as u8
    } else {
        (87 + d) as u8
    }
}

/// The two-digits-per-byte lowercase hex image of a byte string.
pub open spec fn hex_of(s: Seq<u8>) -> Seq<u8>
    decreases s.len(),
{
    if s.len() == 0 {
        Seq::empty()
    } else {
        hex_of(s.drop_last()) + seq![
            hex_digit((s.last() / 16) as nat),
            hex_digit((s.last() % 16) as nat),
        ]
    }
}

/// `0x`-prefixed lowercase hex text.
pub open spec fn hex_str(s: Seq<u8>) -> Seq<u8> {
    seq![48u8, 120u8] + hex_of(s)
}

/// The value of a hex digit character, either case; negative for any other
/// character.
pub open spec fn digit_val(c: u8) -> int {
    if 48 <= c <= 57 {
        c - 48
    } else if 97 <= c <= 102 {
        c - 87
    } else if 65 <= c <= 70 {
        c - 55
    } else {
        -1
    }
}

/// Byte `q` of `out` is the value of its two digit characters in `text`.
pub open spec fn hex_pair_ok(text: Seq<u8>, out: Seq<u8>, q: int) -> bool {
    &&& digit_val(text[2 + 2 * q]) >= 0
    &&& digit_val(text[2 + 2 * q + 1]) >= 0
    &&& 16 * digit_val(text[2 + 2 * q]) + digit_val(text[2 + 2 * q + 1]) == out[q]
}

/// Whether `text` is hex text denoting exactly the bytes `b`, tolerating
/// either letter case.
pub open spec fn is_hex_text(text: Seq<u8>, b: Seq<u8>) -> bool {
    &&& text.len() == 2 + 2 * b.len()
    &&& text[0] == 48
    &&& text[1] == 120
    &&& forall|i: int| 0 <= i < b.len() ==> #[trigger] hex_pair_ok(text, b, i)
}

/// Whether `text` has the shape of hex text: prefix, even length, digits.
pub open spec fn hex_wf(text: Seq<u8>) -> bool {
    &&& text.len() >= 2
    &&& text.len() % 2 == 0
    &&& text[0] == 48
    &&& text[1] == 120
    &&& forall|i: int| 2 <= i < text.len() ==> digit_val(#[trigger] text[i]) >= 0
}

pub proof fn lemma_hex_of_len(s: Seq<u8>)
    ensures
        hex_of(s).len() == 2 * s.len(),
    decreases s.len(),
{
    if s.len() > 0 {
        lemma_hex_of_len(s.drop_last());
    }
}

pub proof fn lemma_hex_of_index(s: Seq<u8>, i: int)
    requires
        0 <= i < s.len(),
    ensures
        hex_of(s).len() == 2 * s.len(),
        hex_of(s)[2 * i] == hex_digit((s[i] / 16) as nat),
        hex_of(s)[2 * i + 1] == hex_digit((s[i] % 16) as nat),
    decreases s.len(),
{
    lemma_hex_of_len(s);
    lemma_hex_of_len(s.drop_last());
    if i < s.len() - 1 {
        lemma_hex_of_index(s.drop_last(), i);
    }
}

/// The digit characters the renderer emits read back as their values.
pub proof fn lemma_digit_val_of_hex_digit(d: nat)
    requires
        d < 16,
    ensures
        digit_val(hex_digit(d)) == d,
{
}

/// The canonical rendering of any byte string is hex text denoting it.
pub proof fn lemma_hex_text_of_render(b: Seq<u8>)
    ensures
        is_hex_text(hex_str(b), b),
        hex_wf(hex_str(b)),
{
    lemma_hex_of_len(b);
    let text = hex_str(b);
    assert forall|i: int| 0 <= i < b.len() implies #[trigger] hex_pair_ok(text, b, i) by {
        lemma_hex_of_index(b, i);
        lemma_digit_val_of_hex_digit((b[i] / 16) as nat);
        lemma_digit_val_of_hex_digit((b[i] % 16) as nat);
    }
    assert forall|i: int| 2 <= i < text.len() implies digit_val(#[trigger] text[i]) >= 0 by {
        let j = (i - 2) / 2;
        lemma_hex_of_index(b, j);
        lemma_digit_val_of_hex_digit((b[j] / 16) as nat);
        lemma_digit_val_of_hex_digit((b[j] % 16) as nat);
        if i % 2 == 0 {
            assert(i == 2 + 2 * j);
        } else {
            assert(i == 2 + 2 * j + 1);
        }
    }
}

/// Hex text denotes at most one byte string, whatever the letter case.
pub proof fn lemma_hex_text_unique(text: Seq<u8>, b1: Seq<u8>, b2: Seq<u8>)
    requires
        is_hex_text(text, b1),
        is_hex_text(text, b2),
    ensures
        b1 == b2,
{
    assert forall|i: int| 0 <= i < b1.len() implies b1[i] == b2[i] by {
        assert(hex_pair_ok(text, b1, i));
        assert(hex_pair_ok(text, b2, i));
    }
    assert(b1 =~= b2);
}

/// Renders bytes as `0x`-prefixed lowercase hex text.
pub fn render_hex(bytes: &Vec<u8>) -> (r: Vec<u8>)
    ensures
        r@ == hex_str(bytes@),
{
    let mut out: Vec<u8> = Vec::new();
    out.push(48);
    out.push(120);
    let n = bytes.len();
    let mut i: usize = 0;
    proof {
        assert(out@ =~= hex_str(bytes@.take(0)));
    }
    while i < n
        invariant
            n == bytes.len(),
            i <= n,
            out@ == hex_str(bytes@.take(i as int)),
        decreases n - i,
    {
        let byte = bytes[i];
        let hi = byte / 16;
        let lo = byte % 16;
        out.push(
            if hi < 10 {
                48 + hi
            } else {
                87 + hi
            },
        );
        out.push(
            if lo < 10 {
                48 + lo
            } else {
                87 + lo
            },
        );
        proof {
            let t = bytes@.take(i + 1);
            assert(t.drop_last() =~= bytes@.take(i as int));
            assert(t.last() == bytes@[i as int]);
            assert(out@ =~= hex_str(bytes@.take(i as int)) + seq![
                hex_digit((byte / 16) as nat),
                hex_digit((byte % 16) as nat),
            ]);
            assert(hex_str(t) =~= hex_str(bytes@.take(i as int)) + seq![
                hex_digit((t.last() / 16) as nat),
                hex_digit((t.last() % 16) as nat),
            ]);
        }
        i += 1;
    }
    proof {
        assert(bytes@.take(n as int) =~= bytes@);
    }
    out
}

/// The value of one hex digit character, either case.
fn digit_of(c: u8) -> (r: Option<u8>)
    ensures
        match r {
            Some(d) => digit_val(c) == d as int && d < 16,
            None => digit_val(c) < 0,
        },
{
    if 48 <= c && c <= 57 {
        Some(c - 48)
    } else if 97 <= c && c <= 102 {
        Some(c - 87)
    } else if 65 <= c && c <= 70 {
        Some(c - 55)
    } else {
        None
    }
}

/// Every byte of `out` so far is the value of its pair of digits.
pub open spec fn hex_pairs(text: Seq<u8>, out: Seq<u8>) -> bool {
    forall|q: int| 0 <= q < out.len() ==> #[trigger] hex_pair_ok(text, out, q)
}

/// Parses `0x`-prefixed hex text, either letter case, into its bytes;
/// `None` exactly when the text is not hex text.
pub fn parse_hex(text: &Vec<u8>) -> (r: Option<Vec<u8>>)
    ensures
        r is Some <==> hex_wf(text@),
        r matches Some(b) ==> is_hex_text(text@, b@),
{
    let n = text.len();
    if n < 2 || n % 2 != 0 {
        return None;
    }
    if text[0] != 48 || text[1] != 120 {
        return None;
    }
    let m = (n - 2) / 2;
    proof {
        assert(n == 2 + 2 * m) by (nonlinear_arith)
            requires
                n % 2 == 0,
                n >= 2,
                m == (n - 2) / 2,
        ;
    }
    let mut out: Vec<u8> = Vec::new();
    let mut i: usize = 0;
    while i < m
        invariant
            n == text.len(),
            n >= 2,
            n == 2 + 2 * m,
            i <= m,
            text@[0] == 48,
            text@[1] == 120,
            out@.len() == i,
            hex_pairs(text@, out@),
        decreases m - i,
    {
        let hi = match digit_of(text[2 + 2 * i]) {
            None => {
                proof {
                    assert(digit_val(text@[2 + 2 * (i as int)]) < 0);
                }
                return None;
            },
            Some(d) => d,
        };
        let lo = match digit_of(text[2 + 2 * i + 1]) {
            None => {
                return None;
            },
            Some(d) => d,
        };
        let ghost out0 = out@;
        out.push(16 * hi + lo);
        proof {
            assert forall|q: int| 0 <= q < out@.len() implies #[trigger] hex_pair_ok(
                text@,
                out@,
                q,
            ) by {
                if q < i {
                    assert(out@[q] == out0[q]);
                    assert(hex_pair_ok(text@, out0, q));
                } else {
                    assert(q == i);
                    assert(digit_val(text@[2 + 2 * q]) == hi as int);
                    assert(digit_val(text@[2 + 2 * q + 1]) == lo as int);
                    assert(out@[q] == 16 * hi + lo);
                }
            }
            assert(hex_pairs(text@, out@));
        }
        i += 1;
    }
    proof {
        assert(is_hex_text(text@, out@));
        assert forall|q: int| 2 <= q < text@.len() implies digit_val(#[trigger] text@[q]) >= 0 by {
            let j = (q - 2) / 2;
            assert(q == 2 + 2 * j || q == 2 + 2 * j + 1) by (nonlinear_arith)
                requires
                    j == (q - 2) / 2,
                    q >= 2,
            ;
            assert(0 <= j < m) by (nonlinear_arith)
                requires
                    q == 2 + 2 * j || q == 2 + 2 * j + 1,
                    2 <= q < 2 + 2 * m,
            ;
            assert(hex_pair_ok(text@, out@, j));
        }
    }
    Some(out)
}

} // verus!
