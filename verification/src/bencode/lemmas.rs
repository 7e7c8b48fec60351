//! Facts about the Bencode model used by the encoder, the decoder and the laws.

use vstd::prelude::*;
use crate::bencode::model::{
    is_digit, digit_end, digits_value, decimal, lex_lt, parse_value, parse_items, parse_entries,
    parse_bytes, parse_integer, parse_length, BencodeTerm, encode, encode_bytes, encode_items,
    encode_entries,
};

verus! {

/// The digit run starting at `p` ends at or after `p`, holds only digits,
/// and is the same run seen from any position inside it.
pub proof fn lemma_digit_end(s: Seq<u8>, p: int)
    requires
        0 <= p <= s.len(),
    ensures
        p <= digit_end(s, p) <= s.len(),
        forall|k: int| p <= k < digit_end(s, p) ==> is_digit(#[trigger] s[k]),
        digit_end(s, p) < s.len() ==> !is_digit(s[digit_end(s, p)]),
        forall|k: int| p <= k <= digit_end(s, p) ==> #[trigger] digit_end(s, k) == digit_end(s, p),
    decreases s.len() - p,
{
    if p < s.len() && is_digit(s[p]) {
        lemma_digit_end(s, p + 1);
    }
}

/// A run of digits at `p` that ends at `q` (end of input or a non-digit).
pub proof fn lemma_digit_end_at(s: Seq<u8>, p: int, q: int)
    requires
        0 <= p <= q <= s.len(),
        forall|k: int| p <= k < q ==> is_digit(#[trigger] s[k]),
        q == s.len() || !is_digit(s[q]),
    ensures
        digit_end(s, p) == q,
    decreases q - p,
{
    if p < q {
        lemma_digit_end_at(s, p + 1, q);
    }
}

/// The value of a digit prefix grows with its length.
pub proof fn lemma_digits_value_mono(s: Seq<u8>, p: int, j: int, k: int)
    requires
        p <= j <= k,
        forall|i: int| p <= i < k ==> is_digit(#[trigger] s[i]),
    ensures
        digits_value(s, p, j) <= digits_value(s, p, k),
    decreases k - j,
{
    if j < k {
        lemma_digits_value_mono(s, p, j, k - 1);
        assert(is_digit(s[k - 1]));
    }
}

/// The value of digits depends only on those digits.
pub proof fn lemma_digits_value_local(s: Seq<u8>, t: Seq<u8>, p: int, q: int, a: int)
    requires
        0 <= p <= q <= s.len(),
        0 <= a,
        a + (q - p) <= t.len(),
        forall|i: int| p <= i < q ==> s[i] == #[trigger] t[a + i - p],
    ensures
        digits_value(s, p, q) == digits_value(t, a, a + (q - p)),
    decreases q - p,
{
    if p < q {
        lemma_digits_value_local(s, t, p, q - 1, a);
        assert(s[q - 1] == t[a + (q - 1) - p]);
    }
}

/// Decimal text: nonempty, all digits, no leading zero unless it is `0`,
/// and it reads back as the number it encodes.
pub proof fn lemma_decimal(n: nat)
    ensures
        decimal(n).len() >= 1,
        forall|i: int| 0 <= i < decimal(n).len() ==> is_digit(#[trigger] decimal(n)[i]),
        n == 0 <==> decimal(n)[0] == 48,
        n == 0 ==> decimal(n).len() == 1,
        digits_value(decimal(n), 0, decimal(n).len() as int) == n,
    decreases n,
{
    if n >= 10 {
        lemma_decimal(n / 10);
        let d = decimal(n / 10);
        let e = decimal(n);
        assert(e == d + seq![((n % 10) + 48) as u8]);
        assert(e[0] == d[0]);
        assert forall|i: int| 0 <= i < e.len() implies is_digit(#[trigger] e[i]) by {
            if i < d.len() {
                assert(e[i] == d[i]);
            }
        }
        lemma_digits_value_local(e, d, 0, d.len() as int, 0);
        assert(digits_value(e, 0, e.len() as int) == digits_value(e, 0, d.len() as int) * 10 + (
        e[d.len() as int] - 48) as nat);
        assert(n == (n / 10) * 10 + n % 10);
    } else {
        let e = decimal(n);
        assert(digits_value(e, 0, 0) == 0);
        assert(digits_value(e, 0, 1) == digits_value(e, 0, 0) * 10 + (e[0] - 48) as nat);
    }
}

/// `lex_lt` is a strict total order.
pub proof fn lemma_lex_trichotomy(a: Seq<u8>, b: Seq<u8>)
    ensures
        lex_lt(a, b) ==> !lex_lt(b, a),
        lex_lt(a, b) ==> a != b,
        !lex_lt(a, b) && a != b ==> lex_lt(b, a),
    decreases a.len(),
{
    if a.len() > 0 && b.len() > 0 && a[0] == b[0] {
        lemma_lex_trichotomy(a.drop_first(), b.drop_first());
        if a.drop_first() == b.drop_first() {
            assert(a == seq![a[0]] + a.drop_first());
            assert(b == seq![b[0]] + b.drop_first());
        }
        if a == b {
            assert(a.drop_first() == b.drop_first());
        }
    }
    if a.len() == 0 && b.len() == 0 {
        assert(a == b);
    }
}

/// `lex_lt` is transitive.
pub proof fn lemma_lex_transitive(a: Seq<u8>, b: Seq<u8>, c: Seq<u8>)
    requires
        lex_lt(a, b),
        lex_lt(b, c),
    ensures
        lex_lt(a, c),
    decreases a.len(),
{
    if a.len() > 0 && b.len() > 0 && c.len() > 0 && a[0] == b[0] && b[0] == c[0] {
        lemma_lex_transitive(a.drop_first(), b.drop_first(), c.drop_first());
    }
}

/// A successful parse of a byte string ends after its start and inside the input.
pub proof fn lemma_parse_bytes_advances(s: Seq<u8>, p: int)
    requires
        0 <= p,
    ensures
        parse_bytes(s, p) matches Ok((b, q)) ==> p < q <= s.len() && q == p + (q - p),
{
    if p <= s.len() {
        lemma_digit_end(s, p);
    }
}

/// A successful parse ends after its start and inside the input.
pub proof fn lemma_parse_advances(s: Seq<u8>, p: int, depth: int)
    ensures
        parse_value(s, p, depth) matches Ok((t, q)) ==> p < q <= s.len(),
    decreases 17 - depth, s.len() - p, 1int,
{
    if depth <= 16 && 0 <= p < s.len() {
        if s[p] == 105 {
            if p + 1 < s.len() {
                let a = p + 1;
                let ds = if s[a] == 45 { a + 1 } else { a };
                lemma_digit_end(s, ds);
            }
        } else if s[p] == 108 {
            lemma_items_advance(s, p + 1, depth);
        } else if s[p] == 100 {
            lemma_entries_advance(s, p + 1, depth, None);
        } else {
            lemma_parse_bytes_advances(s, p);
        }
    }
}

pub proof fn lemma_items_advance(s: Seq<u8>, q: int, depth: int)
    ensures
        parse_items(s, q, depth) matches Ok((items, q3)) ==> q < q3 <= s.len(),
    decreases 17 - depth, s.len() - q, 0int,
{
    if depth <= 16 && 0 <= q < s.len() && s[q] != 101 {
        if let Ok((t, q2)) = parse_value(s, q, depth + 1) {
            if q < q2 <= s.len() {
                lemma_items_advance(s, q2, depth);
            }
        }
    }
}

pub proof fn lemma_entries_advance(s: Seq<u8>, q: int, depth: int, last: Option<Seq<u8>>)
    ensures
        parse_entries(s, q, depth, last) matches Ok((es, q3)) ==> q < q3 <= s.len(),
    decreases 17 - depth, s.len() - q, 0int,
{
    if depth <= 16 && 0 <= q < s.len() && s[q] != 101 {
        if let Ok((key, q1)) = parse_bytes(s, q) {
            if let Ok((t, q2)) = parse_value(s, q1, depth + 1) {
                if q < q2 <= s.len() {
                    lemma_entries_advance(s, q2, depth, Some(key));
                }
            }
        }
    }
}

pub proof fn lemma_encode_items_append(a: Seq<BencodeTerm>, b: Seq<BencodeTerm>)
    ensures
        encode_items(a + b) == encode_items(a) + encode_items(b),
    decreases a.len(),
{
    if a.len() == 0 {
        assert(a + b =~= b);
    } else {
        lemma_encode_items_append(a.drop_first(), b);
        assert((a + b).drop_first() =~= a.drop_first() + b);
    }
}

pub proof fn lemma_encode_entries_append(a: Seq<(Seq<u8>, BencodeTerm)>, b: Seq<(Seq<u8>, BencodeTerm)>)
    ensures
        encode_entries(a + b) == encode_entries(a) + encode_entries(b),
    decreases a.len(),
{
    if a.len() == 0 {
        assert(a + b =~= b);
    } else {
        lemma_encode_entries_append(a.drop_first(), b);
        assert((a + b).drop_first() =~= a.drop_first() + b);
    }
}

pub proof fn lemma_encode_items_single(x: BencodeTerm)
    ensures
        encode_items(seq![x]) == encode(x),
{
    assert(seq![x].drop_first() =~= Seq::<BencodeTerm>::empty());
    assert(seq![x][0] == x);
    assert(encode_items(Seq::<BencodeTerm>::empty()) == Seq::<u8>::empty());
    assert(encode(x) + Seq::<u8>::empty() =~= encode(x));
}

pub proof fn lemma_encode_entries_single(x: (Seq<u8>, BencodeTerm))
    ensures
        encode_entries(seq![x]) == encode_bytes(x.0) + encode(x.1),
{
    assert(seq![x].drop_first() =~= Seq::<(Seq<u8>, BencodeTerm)>::empty());
    assert(seq![x][0] == x);
    assert(encode_entries(Seq::<(Seq<u8>, BencodeTerm)>::empty()) == Seq::<u8>::empty());
    assert(encode_bytes(x.0) + encode(x.1) + Seq::<u8>::empty() =~= encode_bytes(x.0) + encode(x.1));
}

pub open spec fn pow10(k: nat) -> nat
    decreases k,
{
    if k == 0 {
        1
    } else {
        10 * pow10((k - 1) as nat)
    }
}

/// A number below `10^k` has at most `k` decimal digits.
pub proof fn lemma_decimal_len_bound(v: nat, k: nat)
    requires
        k >= 1,
        v < pow10(k),
    ensures
        decimal(v).len() <= k,
    decreases k,
{
    if v >= 10 {
        assert(k >= 2) by {
            if k == 1 {
                assert(pow10(1) == 10 * pow10(0));
            }
        }
        assert(pow10(k) == 10 * pow10((k - 1) as nat));
        lemma_decimal_len_bound(v / 10, (k - 1) as nat);
    }
}

/// `i128::MAX` has fewer than 40 digits.
pub proof fn lemma_i128_digits(v: nat)
    requires
        v <= i128::MAX + 1,
    ensures
        decimal(v).len() <= 39,
{
    reveal_with_fuel(pow10, 40);
    assert(pow10(39) == 1000000000000000000000000000000000000000nat);
    lemma_decimal_len_bound(v, 39);
}

} // verus!
