//! The mathematical model of Bencode: abstract terms, their canonical byte
//! encoding, the grammar's validity conditions and the strict parser.

use vstd::prelude::*;
use crate::error::RcoError;

verus! {

/// An abstract Bencode term, the view of a `BencodeValue`.
pub enum BencodeTerm {
    Bytes(Seq<u8>),
    Integer(i128),
    List(Seq<BencodeTerm>),
    Dict(Seq<(Seq<u8>, BencodeTerm)>),
}

pub open spec fn is_digit(b: u8) -> bool {
    48 <= b <= 57
}

/// Decimal digits of a natural number, most significant first, no leading zero.
pub open spec fn decimal(n: nat) -> Seq<u8>
    decreases n,
{
    if n < 10 {
        seq![(n + 48) as u8]
    } else {
        decimal(n / 10) + seq![((n % 10) + 48) as u8]
    }
}

/// Canonical decimal text of a signed integer: a minus sign for a negative
/// value, then the digits of its magnitude.
pub open spec fn int_text(n: i128) -> Seq<u8> {
    if n < 0 {
        seq![45u8] + decimal((-n) as nat)
    } else {
        decimal(n as nat)
    }
}

/// `<len>:<bytes>`
pub open spec fn encode_bytes(b: Seq<u8>) -> Seq<u8> {
    decimal(b.len()) + seq![58u8] + b
}

/// Canonical encoding of a term.
pub open spec fn encode(t: BencodeTerm) -> Seq<u8>
    decreases t,
{
    match t {
        BencodeTerm::Bytes(b) => encode_bytes(b),
        BencodeTerm::Integer(n) => seq![105u8] + int_text(n) + seq![101u8],
        BencodeTerm::List(items) => seq![108u8] + encode_items(items) + seq![101u8],
        BencodeTerm::Dict(es) => seq![100u8] + encode_entries(es) + seq![101u8],
    }
}

pub open spec fn encode_items(items: Seq<BencodeTerm>) -> Seq<u8>
    decreases items,
{
    if items.len() == 0 {
        Seq::empty()
    } else {
        encode(items[0]) + encode_items(items.drop_first())
    }
}

pub open spec fn encode_entries(es: Seq<(Seq<u8>, BencodeTerm)>) -> Seq<u8>
    decreases es,
{
    if es.len() == 0 {
        Seq::empty()
    } else {
        encode_bytes(es[0].0) + encode(es[0].1) + encode_entries(es.drop_first())
    }
}

/// Byte-wise lexicographic order: `a` is strictly less than `b`.
pub open spec fn lex_lt(a: Seq<u8>, b: Seq<u8>) -> bool
    decreases a.len(),
{
    if b.len() == 0 {
        false
    } else if a.len() == 0 {
        true
    } else if a[0] != b[0] {
        a[0] < b[0]
    } else {
        lex_lt(a.drop_first(), b.drop_first())
    }
}

/// The keys of dictionary entries.
pub open spec fn keys_of(es: Seq<(Seq<u8>, BencodeTerm)>) -> Seq<Seq<u8>> {
    es.map_values(|e: (Seq<u8>, BencodeTerm)| e.0)
}

/// Keys in strictly ascending order (each key below the next).
pub open spec fn strictly_sorted(keys: Seq<Seq<u8>>) -> bool {
    forall|i: int| 0 <= i < keys.len() - 1 ==> #[trigger] lex_lt(keys[i], keys[i + 1])
}

/// The first adjacent pair of keys that is out of order, as the error it raises.
pub open spec fn key_fault_from(keys: Seq<Seq<u8>>, i: int) -> Option<RcoError>
    decreases keys.len() - i,
{
    if i < 0 || i + 1 >= keys.len() {
        None
    } else if lex_lt(keys[i], keys[i + 1]) {
        key_fault_from(keys, i + 1)
    } else if keys[i] == keys[i + 1] {
        Some(RcoError::DuplicateKey)
    } else {
        Some(RcoError::KeyOrderViolation)
    }
}

pub open spec fn key_fault(keys: Seq<Seq<u8>>) -> Option<RcoError> {
    key_fault_from(keys, 0)
}

/// A term that the grammar admits when its root sits at `depth`: no value
/// deeper than the maximum depth, and every dictionary strictly sorted.
pub open spec fn well_formed(t: BencodeTerm, depth: int) -> bool
    decreases t,
{
    &&& depth <= 16
    &&& match t {
        BencodeTerm::List(items) => forall|i: int|
            0 <= i < items.len() ==> well_formed(#[trigger] items[i], depth + 1),
        BencodeTerm::Dict(es) => {
            &&& strictly_sorted(keys_of(es))
            &&& forall|i: int| 0 <= i < es.len() ==> well_formed(#[trigger] es[i].1, depth + 1)
        },
        _ => true,
    }
}

/// No integer in the term is `i128::MIN`: the decoder refuses a magnitude
/// above `i128::MAX`, so that value's text does not read back.
pub open spec fn no_min_integer(t: BencodeTerm) -> bool
    decreases t,
{
    match t {
        BencodeTerm::Integer(n) => n != i128::MIN,
        BencodeTerm::List(items) => forall|i: int|
            0 <= i < items.len() ==> no_min_integer(#[trigger] items[i]),
        BencodeTerm::Dict(es) => forall|i: int|
            0 <= i < es.len() ==> no_min_integer(#[trigger] es[i].1),
        _ => true,
    }
}

// ── The strict parser ─────────────────────────────────────────────

pub open spec fn end_of_input(p: int) -> RcoError {
    RcoError::InvalidGrammar { offset: p as usize, detail: "unexpected end of input" }
}

/// End of the run of ASCII digits that starts at `p`.
pub open spec fn digit_end(s: Seq<u8>, p: int) -> int
    decreases s.len() - p,
{
    if 0 <= p < s.len() && is_digit(s[p]) {
        digit_end(s, p + 1)
    } else {
        p
    }
}

/// Decimal value of the digits `s[p..q]`.
pub open spec fn digits_value(s: Seq<u8>, p: int, q: int) -> nat
    decreases q - p,
{
    if q <= p {
        0
    } else {
        digits_value(s, p, q - 1) * 10 + (s[q - 1] - 48) as nat
    }
}

/// A string length at `p`: its value and the position after its digits. Like
/// an integer, a length is canonical only without leading zeros.
pub open spec fn parse_length(s: Seq<u8>, p: int) -> Result<(nat, int), RcoError> {
    let q = digit_end(s, p);
    if q == p {
        Err(RcoError::InvalidGrammar { offset: p as usize, detail: "expected digit for string length" })
    } else if q - p > 1 && s[p] == 48 {
        Err(RcoError::InvalidGrammar { offset: p as usize, detail: "leading zero in string length" })
    } else if digits_value(s, p, q) > usize::MAX {
        Err(RcoError::InvalidGrammar { offset: p as usize, detail: "string length overflow" })
    } else {
        Ok((digits_value(s, p, q), q))
    }
}

/// A byte string `<len>:<bytes>` at `p`.
pub open spec fn parse_bytes(s: Seq<u8>, p: int) -> Result<(Seq<u8>, int), RcoError> {
    match parse_length(s, p) {
        Err(e) => Err(e),
        Ok((n, q)) => if q >= s.len() {
            Err(end_of_input(q))
        } else if s[q] != 58 {
            Err(RcoError::InvalidGrammar { offset: q as usize, detail: "expected ':' after string length" })
        } else if n > s.len() - (q + 1) {
            Err(RcoError::InvalidGrammar { offset: (q + 1) as usize, detail: "string length exceeds remaining input" })
        } else {
            Ok((s.subrange(q + 1, q + 1 + n), q + 1 + n))
        },
    }
}

/// An integer `i<number>e` whose `i` sits at `p`.
pub open spec fn parse_integer(s: Seq<u8>, p: int) -> Result<(i128, int), RcoError> {
    let a = p + 1;
    if a >= s.len() {
        Err(end_of_input(a))
    } else {
        let neg = s[a] == 45;
        let ds = if neg { a + 1 } else { a };
        let de = digit_end(s, ds);
        let v = digits_value(s, ds, de);
        if ds == de {
            Err(RcoError::InvalidInteger { offset: p as usize })
        } else if de - ds > 1 && s[ds] == 48 {
            Err(RcoError::InvalidInteger { offset: p as usize })
        } else if neg && de - ds == 1 && s[ds] == 48 {
            Err(RcoError::InvalidInteger { offset: p as usize })
        } else if de >= s.len() {
            Err(end_of_input(de))
        } else if s[de] != 101 {
            Err(RcoError::InvalidGrammar { offset: de as usize, detail: "unexpected byte" })
        } else if v > i128::MAX {
            Err(RcoError::InvalidInteger { offset: p as usize })
        } else {
            Ok((if neg { (-v) as i128 } else { v as i128 }, de + 1))
        }
    }
}

/// A value at `p` whose nesting depth is `depth`.
pub open spec fn parse_value(s: Seq<u8>, p: int, depth: int) -> Result<(BencodeTerm, int), RcoError>
    decreases 17 - depth, s.len() - p, 1int,
{
    if depth > 16 {
        Err(RcoError::RecursionDepthExceeded { depth: depth as usize })
    } else if p < 0 || p >= s.len() {
        Err(end_of_input(p))
    } else if s[p] == 105 {
        match parse_integer(s, p) {
            Err(e) => Err(e),
            Ok((n, q)) => Ok((BencodeTerm::Integer(n), q)),
        }
    } else if s[p] == 108 {
        match parse_items(s, p + 1, depth) {
            Err(e) => Err(e),
            Ok((items, q)) => Ok((BencodeTerm::List(items), q)),
        }
    } else if s[p] == 100 {
        match parse_entries(s, p + 1, depth, None) {
            Err(e) => Err(e),
            Ok((es, q)) => Ok((BencodeTerm::Dict(es), q)),
        }
    } else if is_digit(s[p]) {
        match parse_bytes(s, p) {
            Err(e) => Err(e),
            Ok((b, q)) => Ok((BencodeTerm::Bytes(b), q)),
        }
    } else {
        Err(RcoError::InvalidGrammar { offset: p as usize, detail: "unexpected byte at start of value" })
    }
}

/// The elements of a list from `q` up to and including its closing `e`.
pub open spec fn parse_items(s: Seq<u8>, q: int, depth: int) -> Result<(Seq<BencodeTerm>, int), RcoError>
    decreases 17 - depth, s.len() - q, 0int,
{
    if depth > 16 {
        Err(RcoError::RecursionDepthExceeded { depth: depth as usize })
    } else if q < 0 || q >= s.len() {
        Err(end_of_input(q))
    } else if s[q] == 101 {
        Ok((Seq::empty(), q + 1))
    } else {
        match parse_value(s, q, depth + 1) {
            Err(e) => Err(e),
            Ok((t, q2)) => if q < q2 <= s.len() {
                match parse_items(s, q2, depth) {
                    Err(e) => Err(e),
                    Ok((rest, q3)) => Ok((seq![t] + rest, q3)),
                }
            } else {
                Err(end_of_input(q2))
            },
        }
    }
}

/// The order check between the previous key and the next one.
pub open spec fn order_fault(last: Option<Seq<u8>>, key: Seq<u8>) -> Option<RcoError> {
    match last {
        None => None,
        Some(prev) => if lex_lt(prev, key) {
            None
        } else if prev == key {
            Some(RcoError::DuplicateKey)
        } else {
            Some(RcoError::KeyOrderViolation)
        },
    }
}

/// The entries of a dictionary from `q` up to and including its closing `e`;
/// `last` is the key of the entry before `q`.
pub open spec fn parse_entries(
    s: Seq<u8>,
    q: int,
    depth: int,
    last: Option<Seq<u8>>,
) -> Result<(Seq<(Seq<u8>, BencodeTerm)>, int), RcoError>
    decreases 17 - depth, s.len() - q, 0int,
{
    if depth > 16 {
        Err(RcoError::RecursionDepthExceeded { depth: depth as usize })
    } else if q < 0 || q >= s.len() {
        Err(end_of_input(q))
    } else if s[q] == 101 {
        Ok((Seq::empty(), q + 1))
    } else {
        match parse_bytes(s, q) {
            Err(e) => Err(e),
            Ok((key, q1)) => match order_fault(last, key) {
                Some(e) => Err(e),
                None => match parse_value(s, q1, depth + 1) {
                    Err(e) => Err(e),
                    Ok((t, q2)) => if q < q2 <= s.len() {
                        match parse_entries(s, q2, depth, Some(key)) {
                            Err(e) => Err(e),
                            Ok((rest, q3)) => Ok((seq![(key, t)] + rest, q3)),
                        }
                    } else {
                        Err(end_of_input(q2))
                    },
                },
            },
        }
    }
}

/// Decoding of a whole buffer: one value and nothing after it.
pub open spec fn decode_spec(s: Seq<u8>) -> Result<BencodeTerm, RcoError> {
    match parse_value(s, 0, 0) {
        Err(e) => Err(e),
        Ok((t, q)) => if q < s.len() {
            Err(RcoError::InvalidGrammar { offset: q as usize, detail: "trailing data after value" })
        } else {
            Ok(t)
        },
    }
}

// ── The encoder's writes ──────────────────────────────────────────

/// `n` clamped to the `usize` range.
pub open spec fn saturate(n: int) -> usize {
    if n > usize::MAX {
        usize::MAX
    } else if n < 0 {
        0
    } else {
        n as usize
    }
}

/// `k` single-byte writes from `cur` into a buffer of `cap` bytes: the first
/// write that finds the buffer full fails.
pub open spec fn emit_run(cur: int, k: int, cap: int) -> Result<int, RcoError> {
    if cur + k <= cap {
        Ok(cur + k)
    } else {
        Err(RcoError::BufferTooSmall { required: saturate(cap + 1), available: cap as usize })
    }
}

/// One write of `n` bytes at `cur`, done whole or not at all.
pub open spec fn emit_chunk(cur: int, n: int, cap: int) -> Result<int, RcoError> {
    if cur + n <= cap {
        Ok(cur + n)
    } else {
        Err(RcoError::BufferTooSmall { required: saturate(cur + n), available: cap as usize })
    }
}

/// Writes of a byte string: its length digit by digit, the colon, then the
/// bytes in one write.
pub open spec fn emit_bytes(b: Seq<u8>, cur: int, cap: int) -> Result<int, RcoError> {
    match emit_run(cur, decimal(b.len()).len() + 1int, cap) {
        Err(e) => Err(e),
        Ok(c) => emit_chunk(c, b.len() as int, cap),
    }
}

/// The outcome of encoding `t` at nesting `depth` into a buffer of `cap`
/// bytes from cursor `cur`: the cursor after it, or the first error met.
pub open spec fn emit(t: BencodeTerm, depth: int, cur: int, cap: int) -> Result<int, RcoError>
    decreases t,
{
    if depth > 16 {
        Err(RcoError::RecursionDepthExceeded { depth: depth as usize })
    } else {
        match t {
            BencodeTerm::Bytes(b) => emit_bytes(b, cur, cap),
            BencodeTerm::Integer(n) => emit_run(cur, int_text(n).len() + 2int, cap),
            BencodeTerm::List(items) => match emit_run(cur, 1, cap) {
                Err(e) => Err(e),
                Ok(c1) => match emit_items(items, depth, c1, cap) {
                    Err(e) => Err(e),
                    Ok(c2) => emit_run(c2, 1, cap),
                },
            },
            BencodeTerm::Dict(es) => match key_fault(keys_of(es)) {
                Some(e) => Err(e),
                None => match emit_run(cur, 1, cap) {
                    Err(e) => Err(e),
                    Ok(c1) => match emit_entries(es, depth, c1, cap) {
                        Err(e) => Err(e),
                        Ok(c2) => emit_run(c2, 1, cap),
                    },
                },
            },
        }
    }
}

pub open spec fn emit_items(items: Seq<BencodeTerm>, depth: int, cur: int, cap: int) -> Result<int, RcoError>
    decreases items,
{
    if items.len() == 0 {
        Ok(cur)
    } else {
        match emit(items[0], depth + 1, cur, cap) {
            Err(e) => Err(e),
            Ok(c) => emit_items(items.drop_first(), depth, c, cap),
        }
    }
}

pub open spec fn emit_entries(
    es: Seq<(Seq<u8>, BencodeTerm)>,
    depth: int,
    cur: int,
    cap: int,
) -> Result<int, RcoError>
    decreases es,
{
    if es.len() == 0 {
        Ok(cur)
    } else {
        match emit_bytes(es[0].0, cur, cap) {
            Err(e) => Err(e),
            Ok(c1) => match emit(es[0].1, depth + 1, c1, cap) {
                Err(e) => Err(e),
                Ok(c2) => emit_entries(es.drop_first(), depth, c2, cap),
            },
        }
    }
}

} // verus!
