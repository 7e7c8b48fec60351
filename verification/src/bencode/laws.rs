//! Laws of the canonical Bencode engine: what the decoder gives back of an
//! encoding, when the encoder succeeds, and what decoded values look like.

use vstd::prelude::*;
use crate::bencode::model::{
    BencodeTerm, is_digit, decimal, int_text, encode, encode_bytes, encode_items, encode_entries,
    lex_lt, keys_of, strictly_sorted, key_fault, key_fault_from, well_formed, no_min_integer,
    digit_end, digits_value, parse_length, parse_bytes, parse_integer, parse_value, parse_items,
    parse_entries, order_fault, decode_spec, emit, emit_run, emit_chunk, emit_bytes, emit_items,
    emit_entries,
};
use crate::bencode::lemmas::{
    lemma_decimal, lemma_digit_end, lemma_digit_end_at, lemma_digits_value_local,
    lemma_lex_trichotomy, lemma_parse_advances,
};

verus! {

/// Splitting a known stretch of the input in two.
proof fn lemma_split(s: Seq<u8>, p: int, a: Seq<u8>, b: Seq<u8>)
    requires
        0 <= p,
        p + a.len() + b.len() <= s.len(),
        s.subrange(p, p + a.len() + b.len()) == a + b,
    ensures
        s.subrange(p, p + a.len()) == a,
        s.subrange(p + a.len(), p + a.len() + b.len()) == b,
{
    assert(s.subrange(p, p + a.len()) =~= (a + b).subrange(0, a.len() as int));
    assert(s.subrange(p + a.len(), p + a.len() + b.len()) =~= (a + b).subrange(a.len() as int, (a + b).len() as int));
}

/// The first byte of an encoding opens a value: never the closing `e`.
proof fn lemma_encode_first(t: BencodeTerm)
    ensures
        encode(t).len() >= 1,
        encode(t)[0] != 101,
        t is Bytes ==> is_digit(encode(t)[0]),
{
    match t {
        BencodeTerm::Bytes(b) => {
            lemma_decimal(b.len());
            assert(encode(t)[0] == decimal(b.len())[0]);
        },
        _ => {},
    }
}

/// A string length written in decimal reads back.
proof fn lemma_rt_length(n: nat, s: Seq<u8>, p: int)
    requires
        0 <= p,
        p + decimal(n).len() < s.len(),
        s.len() <= usize::MAX,
        n <= usize::MAX,
        s.subrange(p, p + decimal(n).len()) == decimal(n),
        !is_digit(s[p + decimal(n).len()]),
    ensures
        parse_length(s, p) == Ok::<(nat, int), crate::error::RcoError>((n, p + decimal(n).len())),
{
    let d = decimal(n);
    lemma_decimal(n);
    assert forall|k: int| p <= k < p + d.len() implies is_digit(#[trigger] s[k]) by {
        assert(s[k] == s.subrange(p, p + d.len())[k - p]);
    }
    lemma_digit_end_at(s, p, p + d.len());
    assert forall|i: int| p <= i < p + d.len() implies s[i] == #[trigger] d[0 + i - p] by {
        assert(s[i] == s.subrange(p, p + d.len())[i - p]);
    }
    lemma_digits_value_local(s, d, p, p + d.len(), 0);
    assert(s[p] == d[0]);
}

/// A byte string's encoding reads back.
proof fn lemma_rt_bytes(b: Seq<u8>, s: Seq<u8>, p: int)
    requires
        0 <= p,
        p + encode_bytes(b).len() <= s.len(),
        s.len() <= usize::MAX,
        s.subrange(p, p + encode_bytes(b).len()) == encode_bytes(b),
    ensures
        parse_bytes(s, p) == Ok::<(Seq<u8>, int), crate::error::RcoError>((b, p + encode_bytes(b).len())),
{
    let d = decimal(b.len());
    lemma_split(s, p, d + seq![58u8], b);
    lemma_split(s, p, d, seq![58u8]);
    assert(s[p + d.len()] == s.subrange(p + d.len(), p + d.len() + 1)[0]);
    lemma_rt_length(b.len(), s, p);
}

/// An integer's encoding reads back, unless it is `i128::MIN`, whose
/// magnitude exceeds `i128::MAX`.
proof fn lemma_rt_integer(n: i128, s: Seq<u8>, p: int)
    requires
        n != i128::MIN,
        0 <= p,
        p + encode(BencodeTerm::Integer(n)).len() <= s.len(),
        s.subrange(p, p + encode(BencodeTerm::Integer(n)).len()) == encode(BencodeTerm::Integer(n)),
    ensures
        parse_integer(s, p) == Ok::<(i128, int), crate::error::RcoError>((n, p + encode(BencodeTerm::Integer(n)).len())),
{
    let text = int_text(n);
    let m: nat = if n < 0 { (-n) as nat } else { n as nat };
    let d = decimal(m);
    lemma_decimal(m);
    let enc = encode(BencodeTerm::Integer(n));
    assert(enc == seq![105u8] + text + seq![101u8]);
    lemma_split(s, p, seq![105u8] + text, seq![101u8]);
    lemma_split(s, p, seq![105u8], text);
    let a = p + 1;
    let ds = if n < 0 { a + 1 } else { a };
    assert(s.subrange(a, a + text.len()) == text);
    if n < 0 {
        assert(text == seq![45u8] + d);
        lemma_split(s, a, seq![45u8], d);
        assert(s[a] == s.subrange(a, a + 1)[0]);
    } else {
        assert(text == d);
        assert(s[a] == s.subrange(a, a + d.len())[0]);
    }
    assert(s.subrange(ds, ds + d.len()) == d);
    let de = ds + d.len();
    assert(de == p + 1 + text.len());
    assert(s[de] == s.subrange(de, de + 1)[0]);
    assert forall|k: int| ds <= k < de implies is_digit(#[trigger] s[k]) by {
        assert(s[k] == s.subrange(ds, ds + d.len())[k - ds]);
    }
    lemma_digit_end_at(s, ds, de);
    assert forall|i: int| ds <= i < de implies s[i] == #[trigger] d[0 + i - ds] by {
        assert(s[i] == s.subrange(ds, ds + d.len())[i - ds]);
    }
    lemma_digits_value_local(s, d, ds, de, 0);
    assert(s[ds] == d[0]);
}

/// Law: the decoder reads back every well-formed value from its encoding,
/// wherever the encoding sits in the input. `i128::MIN` is excluded: the
/// decoder reads a magnitude as a nonnegative `i128`, and `2^127` overflows it.
pub proof fn law_parse_encoding(t: BencodeTerm, s: Seq<u8>, p: int, depth: int)
    requires
        well_formed(t, depth),
        no_min_integer(t),
        0 <= depth,
        0 <= p,
        p + encode(t).len() <= s.len(),
        s.len() <= usize::MAX,
        s.subrange(p, p + encode(t).len()) == encode(t),
    ensures
        parse_value(s, p, depth) == Ok::<(BencodeTerm, int), crate::error::RcoError>((t, p + encode(t).len())),
    decreases t,
{
    lemma_encode_first(t);
    assert(s[p] == s.subrange(p, p + encode(t).len())[0]);
    match t {
        BencodeTerm::Bytes(b) => {
            lemma_rt_bytes(b, s, p);
        },
        BencodeTerm::Integer(n) => {
            lemma_rt_integer(n, s, p);
        },
        BencodeTerm::List(items) => {
            let body = encode_items(items);
            assert(encode(t) == seq![108u8] + (body + seq![101u8]));
            lemma_split(s, p, seq![108u8], body + seq![101u8]);
            lemma_rt_items(items, s, p + 1, depth);
        },
        BencodeTerm::Dict(es) => {
            let body = encode_entries(es);
            assert(encode(t) == seq![100u8] + (body + seq![101u8]));
            lemma_split(s, p, seq![100u8], body + seq![101u8]);
            lemma_rt_entries(es, s, p + 1, depth, None);
        },
    }
}

proof fn lemma_rt_items(items: Seq<BencodeTerm>, s: Seq<u8>, q: int, depth: int)
    requires
        0 <= depth <= 16,
        forall|i: int| 0 <= i < items.len() ==> well_formed(#[trigger] items[i], depth + 1),
        forall|i: int| 0 <= i < items.len() ==> no_min_integer(#[trigger] items[i]),
        0 <= q,
        q + encode_items(items).len() + 1 <= s.len(),
        s.len() <= usize::MAX,
        s.subrange(q, q + encode_items(items).len() + 1) == encode_items(items) + seq![101u8],
    ensures
        parse_items(s, q, depth) == Ok::<(Seq<BencodeTerm>, int), crate::error::RcoError>((items, q + encode_items(items).len() + 1)),
    decreases items,
{
    if items.len() == 0 {
        assert(s[q] == s.subrange(q, q + 1)[0]);
        assert(items =~= Seq::<BencodeTerm>::empty());
    } else {
        let first = encode(items[0]);
        let rest = encode_items(items.drop_first());
        assert(encode_items(items) == first + rest);
        assert(encode_items(items) + seq![101u8] == first + (rest + seq![101u8]));
        lemma_split(s, q, first, rest + seq![101u8]);
        lemma_encode_first(items[0]);
        assert(s[q] == s.subrange(q, q + first.len())[0]);
        law_parse_encoding(items[0], s, q, depth + 1);
        assert forall|i: int| 0 <= i < items.drop_first().len() implies well_formed(#[trigger] items.drop_first()[i], depth + 1) by {
            assert(items.drop_first()[i] == items[i + 1]);
        }
        assert forall|i: int| 0 <= i < items.drop_first().len() implies no_min_integer(#[trigger] items.drop_first()[i]) by {
            assert(items.drop_first()[i] == items[i + 1]);
        }
        lemma_rt_items(items.drop_first(), s, q + first.len(), depth);
        assert(seq![items[0]] + items.drop_first() =~= items);
    }
}

proof fn lemma_rt_entries(
    es: Seq<(Seq<u8>, BencodeTerm)>,
    s: Seq<u8>,
    q: int,
    depth: int,
    last: Option<Seq<u8>>,
)
    requires
        0 <= depth <= 16,
        strictly_sorted(keys_of(es)),
        forall|i: int| 0 <= i < es.len() ==> well_formed(#[trigger] es[i].1, depth + 1),
        forall|i: int| 0 <= i < es.len() ==> no_min_integer(#[trigger] es[i].1),
        es.len() > 0 ==> (last matches Some(k) ==> lex_lt(k, es[0].0)),
        0 <= q,
        q + encode_entries(es).len() + 1 <= s.len(),
        s.len() <= usize::MAX,
        s.subrange(q, q + encode_entries(es).len() + 1) == encode_entries(es) + seq![101u8],
    ensures
        parse_entries(s, q, depth, last) == Ok::<(Seq<(Seq<u8>, BencodeTerm)>, int), crate::error::RcoError>((es, q + encode_entries(es).len() + 1)),
    decreases es,
{
    if es.len() == 0 {
        assert(s[q] == s.subrange(q, q + 1)[0]);
        assert(es =~= Seq::<(Seq<u8>, BencodeTerm)>::empty());
    } else {
        let key = es[0].0;
        let kb = encode_bytes(key);
        let vb = encode(es[0].1);
        let rest = encode_entries(es.drop_first());
        assert(encode_entries(es) == kb + vb + rest);
        assert(encode_entries(es) + seq![101u8] == kb + (vb + (rest + seq![101u8])));
        lemma_split(s, q, kb, vb + (rest + seq![101u8]));
        lemma_split(s, q + kb.len(), vb, rest + seq![101u8]);
        lemma_decimal(key.len());
        assert(kb[0] == decimal(key.len())[0]);
        assert(s[q] == s.subrange(q, q + kb.len())[0]);
        lemma_rt_bytes(key, s, q);
        assert(decreases_to!(es => es[0]));
        law_parse_encoding(es[0].1, s, q + kb.len(), depth + 1);
        lemma_encode_first(es[0].1);
        let tail = es.drop_first();
        assert(keys_of(es)[0] == key);
        assert forall|i: int| 0 <= i < keys_of(tail).len() - 1 implies #[trigger] lex_lt(keys_of(tail)[i], keys_of(tail)[i + 1]) by {
            assert(keys_of(tail)[i] == keys_of(es)[i + 1]);
            assert(keys_of(tail)[i + 1] == keys_of(es)[i + 2]);
            let k = i + 1;
            assert(lex_lt(keys_of(es)[k], keys_of(es)[k + 1]));
        }
        if tail.len() > 0 {
            let z: int = 0;
            assert(lex_lt(keys_of(es)[z], keys_of(es)[z + 1]));
            assert(keys_of(es)[1] == tail[0].0);
        }
        assert forall|i: int| 0 <= i < tail.len() implies well_formed(#[trigger] tail[i].1, depth + 1) by {
            assert(tail[i] == es[i + 1]);
        }
        assert forall|i: int| 0 <= i < tail.len() implies no_min_integer(#[trigger] tail[i].1) by {
            assert(tail[i] == es[i + 1]);
        }
        lemma_rt_entries(tail, s, q + kb.len() + vb.len(), depth, Some(key));
        assert(seq![(key, es[0].1)] + tail =~= es);
    }
}

/// Law: decoding the encoding of a well-formed value gives the value back.
/// `i128::MIN` is excluded: the decoder refuses its magnitude `2^127`.
pub proof fn law_decode_encode(t: BencodeTerm)
    requires
        well_formed(t, 0),
        no_min_integer(t),
        encode(t).len() <= usize::MAX,
    ensures
        decode_spec(encode(t)) == Ok::<BencodeTerm, crate::error::RcoError>(t),
{
    let s = encode(t);
    assert(s.subrange(0, s.len() as int) =~= s);
    law_parse_encoding(t, s, 0, 0);
}

// ── Decoded values are well formed ────────────────────────────────

pub proof fn lemma_parsed_value(s: Seq<u8>, p: int, depth: int)
    ensures
        parse_value(s, p, depth) matches Ok((t, q)) ==> well_formed(t, depth) && no_min_integer(t),
    decreases 17 - depth, s.len() - p, 1int,
{
    if depth <= 16 && 0 <= p < s.len() {
        if s[p] == 108 {
            lemma_parsed_items(s, p + 1, depth);
        } else if s[p] == 100 {
            lemma_parsed_entries(s, p + 1, depth, None);
        }
    }
}

proof fn lemma_parsed_items(s: Seq<u8>, q: int, depth: int)
    ensures
        parse_items(s, q, depth) matches Ok((items, q3)) ==> {
            &&& forall|i: int| 0 <= i < items.len() ==> well_formed(#[trigger] items[i], depth + 1)
            &&& forall|i: int| 0 <= i < items.len() ==> no_min_integer(#[trigger] items[i])
        },
    decreases 17 - depth, s.len() - q, 0int,
{
    if depth <= 16 && 0 <= q < s.len() && s[q] != 101 {
        lemma_parsed_value(s, q, depth + 1);
        if let Ok((t, q2)) = parse_value(s, q, depth + 1) {
            if q < q2 <= s.len() {
                lemma_parsed_items(s, q2, depth);
                if let Ok((rest, q3)) = parse_items(s, q2, depth) {
                    let items = seq![t] + rest;
                    assert forall|i: int| 0 <= i < items.len() implies well_formed(#[trigger] items[i], depth + 1) && no_min_integer(items[i]) by {
                        if i > 0 {
                            assert(items[i] == rest[i - 1]);
                        }
                    }
                }
            }
        }
    }
}

proof fn lemma_parsed_entries(s: Seq<u8>, q: int, depth: int, last: Option<Seq<u8>>)
    ensures
        parse_entries(s, q, depth, last) matches Ok((es, q3)) ==> {
            &&& strictly_sorted(keys_of(es))
            &&& es.len() > 0 ==> (last matches Some(k) ==> lex_lt(k, es[0].0))
            &&& forall|i: int| 0 <= i < es.len() ==> well_formed(#[trigger] es[i].1, depth + 1)
            &&& forall|i: int| 0 <= i < es.len() ==> no_min_integer(#[trigger] es[i].1)
        },
    decreases 17 - depth, s.len() - q, 0int,
{
    if depth <= 16 && 0 <= q < s.len() && s[q] != 101 {
        if let Ok((key, q1)) = parse_bytes(s, q) {
            if order_fault(last, key) is None {
                lemma_parsed_value(s, q1, depth + 1);
                if let Ok((t, q2)) = parse_value(s, q1, depth + 1) {
                    if q < q2 <= s.len() {
                        lemma_parsed_entries(s, q2, depth, Some(key));
                        if let Ok((rest, q3)) = parse_entries(s, q2, depth, Some(key)) {
                            let es = seq![(key, t)] + rest;
                            let ks = keys_of(es);
                            assert forall|i: int| 0 <= i < ks.len() - 1 implies #[trigger] lex_lt(ks[i], ks[i + 1]) by {
                                if i == 0 {
                                    assert(ks[0] == key);
                                    assert(ks[1] == rest[0].0);
                                } else {
                                    let k = i - 1;
                                    assert(lex_lt(keys_of(rest)[k], keys_of(rest)[k + 1]));
                                    assert(ks[i] == keys_of(rest)[k]);
                                    assert(ks[i + 1] == keys_of(rest)[k + 1]);
                                }
                            }
                            assert forall|i: int| 0 <= i < es.len() implies well_formed(#[trigger] es[i].1, depth + 1) && no_min_integer(es[i].1) by {
                                if i > 0 {
                                    assert(es[i] == rest[i - 1]);
                                }
                            }
                            if last is Some {
                                lemma_lex_trichotomy(last.unwrap(), key);
                            }
                        }
                    }
                }
            }
        }
    }
}

/// Law: every value the decoder accepts is well formed and free of
/// `i128::MIN`, so the encoder accepts it and its encoding decodes back to
/// it: decoding is idempotent through the encoder.
pub proof fn law_decoded_reencodes(s: Seq<u8>)
    requires
        decode_spec(s) is Ok,
    ensures
        well_formed(decode_spec(s)->Ok_0, 0),
        no_min_integer(decode_spec(s)->Ok_0),
        encode(decode_spec(s)->Ok_0).len() <= usize::MAX ==>
            decode_spec(encode(decode_spec(s)->Ok_0)) == decode_spec(s),
{
    lemma_parsed_value(s, 0, 0);
    let t = decode_spec(s)->Ok_0;
    if encode(t).len() <= usize::MAX {
        law_decode_encode(t);
    }
}

// ── When the encoder succeeds ─────────────────────────────────────

proof fn lemma_key_fault(keys: Seq<Seq<u8>>, i: int)
    requires
        0 <= i,
    ensures
        key_fault_from(keys, i) is None <==> forall|j: int| i <= j < keys.len() - 1 ==> #[trigger] lex_lt(keys[j], keys[j + 1]),
    decreases keys.len() - i,
{
    if i + 1 < keys.len() {
        lemma_key_fault(keys, i + 1);
        if !lex_lt(keys[i], keys[i + 1]) {
            assert(key_fault_from(keys, i) is Some);
        }
    }
}

proof fn lemma_emit_value(t: BencodeTerm, depth: int, cur: int, cap: int)
    requires
        0 <= cur <= cap,
    ensures
        emit(t, depth, cur, cap) matches Ok(c) ==> c == cur + encode(t).len() && well_formed(t, depth),
        well_formed(t, depth) && cur + encode(t).len() <= cap ==> emit(t, depth, cur, cap) == Ok::<int, crate::error::RcoError>(cur + encode(t).len()),
    decreases t,
{
    if depth <= 16 {
        match t {
            BencodeTerm::List(items) => {
                lemma_emit_items(items, depth, cur + 1, cap);
            },
            BencodeTerm::Dict(es) => {
                lemma_key_fault(keys_of(es), 0);
                lemma_emit_entries(es, depth, cur + 1, cap);
            },
            _ => {},
        }
    }
}

proof fn lemma_emit_items(items: Seq<BencodeTerm>, depth: int, cur: int, cap: int)
    requires
        0 <= cur,
    ensures
        emit_items(items, depth, cur, cap) matches Ok(c) ==> {
            &&& c == cur + encode_items(items).len()
            &&& forall|i: int| 0 <= i < items.len() ==> well_formed(#[trigger] items[i], depth + 1)
        },
        (forall|i: int| 0 <= i < items.len() ==> well_formed(#[trigger] items[i], depth + 1))
            && cur + encode_items(items).len() <= cap
            ==> emit_items(items, depth, cur, cap) == Ok::<int, crate::error::RcoError>(cur + encode_items(items).len()),
    decreases items,
{
    if items.len() > 0 {
        let e0 = encode(items[0]);
        if cur <= cap {
            lemma_emit_value(items[0], depth + 1, cur, cap);
        }
        lemma_emit_items(items.drop_first(), depth, cur + e0.len(), cap);
        assert forall|i: int| 0 <= i < items.drop_first().len() implies (well_formed(#[trigger] items.drop_first()[i], depth + 1) <==> well_formed(items[i + 1], depth + 1)) by {
            assert(items.drop_first()[i] == items[i + 1]);
        }
        if emit_items(items, depth, cur, cap) is Ok {
            assert(cur <= cap) by {
                if cur > cap {
                    assert(emit(items[0], depth + 1, cur, cap) is Err) by {
                        lemma_emit_overflow(items[0], depth + 1, cur, cap);
                    }
                }
            }
            assert forall|i: int| 0 <= i < items.len() implies well_formed(#[trigger] items[i], depth + 1) by {
                if i > 0 {
                    assert(items.drop_first()[i - 1] == items[i]);
                }
            }
        }
    }
}

proof fn lemma_emit_entries(es: Seq<(Seq<u8>, BencodeTerm)>, depth: int, cur: int, cap: int)
    requires
        0 <= cur,
    ensures
        emit_entries(es, depth, cur, cap) matches Ok(c) ==> {
            &&& c == cur + encode_entries(es).len()
            &&& forall|i: int| 0 <= i < es.len() ==> well_formed(#[trigger] es[i].1, depth + 1)
        },
        (forall|i: int| 0 <= i < es.len() ==> well_formed(#[trigger] es[i].1, depth + 1))
            && cur + encode_entries(es).len() <= cap
            ==> emit_entries(es, depth, cur, cap) == Ok::<int, crate::error::RcoError>(cur + encode_entries(es).len()),
    decreases es,
{
    if es.len() > 0 {
        let kb = encode_bytes(es[0].0);
        let vb = encode(es[0].1);
        let c1 = cur + kb.len();
        assert(decreases_to!(es => es[0]));
        if c1 <= cap {
            lemma_emit_value(es[0].1, depth + 1, c1, cap);
        } else {
            lemma_emit_overflow(es[0].1, depth + 1, c1, cap);
        }
        lemma_emit_entries(es.drop_first(), depth, c1 + vb.len(), cap);
        assert forall|i: int| 0 <= i < es.drop_first().len() implies (well_formed(#[trigger] es.drop_first()[i].1, depth + 1) <==> well_formed(es[i + 1].1, depth + 1)) by {
            assert(es.drop_first()[i] == es[i + 1]);
        }
        if emit_entries(es, depth, cur, cap) is Ok {
            assert forall|i: int| 0 <= i < es.len() implies well_formed(#[trigger] es[i].1, depth + 1) by {
                if i > 0 {
                    assert(es.drop_first()[i - 1] == es[i]);
                }
            }
        }
    }
}

/// Emitting from a cursor already past the end fails.
proof fn lemma_emit_overflow(t: BencodeTerm, depth: int, cur: int, cap: int)
    requires
        cur > cap,
    ensures
        emit(t, depth, cur, cap) is Err,
{
}

/// A failure to emit a well-formed value is always a buffer that is too small.
pub proof fn lemma_emit_error_kind(t: BencodeTerm, depth: int, cur: int, cap: int)
    requires
        well_formed(t, depth),
    ensures
        emit(t, depth, cur, cap) matches Err(e) ==> e is BufferTooSmall,
    decreases t,
{
    match t {
        BencodeTerm::List(items) => {
            lemma_emit_items_error_kind(items, depth, cur + 1, cap);
        },
        BencodeTerm::Dict(es) => {
            lemma_key_fault(keys_of(es), 0);
            lemma_emit_entries_error_kind(es, depth, cur + 1, cap);
        },
        _ => {},
    }
}

proof fn lemma_emit_items_error_kind(items: Seq<BencodeTerm>, depth: int, cur: int, cap: int)
    requires
        forall|i: int| 0 <= i < items.len() ==> well_formed(#[trigger] items[i], depth + 1),
    ensures
        emit_items(items, depth, cur, cap) matches Err(e) ==> e is BufferTooSmall,
    decreases items,
{
    if items.len() > 0 {
        assert(decreases_to!(items => items[0]));
        lemma_emit_error_kind(items[0], depth + 1, cur, cap);
        if let Ok(c) = emit(items[0], depth + 1, cur, cap) {
            assert forall|i: int| 0 <= i < items.drop_first().len() implies well_formed(#[trigger] items.drop_first()[i], depth + 1) by {
                assert(items.drop_first()[i] == items[i + 1]);
            }
            lemma_emit_items_error_kind(items.drop_first(), depth, c, cap);
        }
    }
}

proof fn lemma_emit_entries_error_kind(es: Seq<(Seq<u8>, BencodeTerm)>, depth: int, cur: int, cap: int)
    requires
        forall|i: int| 0 <= i < es.len() ==> well_formed(#[trigger] es[i].1, depth + 1),
    ensures
        emit_entries(es, depth, cur, cap) matches Err(e) ==> e is BufferTooSmall,
    decreases es,
{
    if es.len() > 0 {
        assert(decreases_to!(es => es[0]));
        if let Ok(c1) = emit_bytes(es[0].0, cur, cap) {
            lemma_emit_error_kind(es[0].1, depth + 1, c1, cap);
            if let Ok(c2) = emit(es[0].1, depth + 1, c1, cap) {
                assert forall|i: int| 0 <= i < es.drop_first().len() implies well_formed(#[trigger] es.drop_first()[i].1, depth + 1) by {
                    assert(es.drop_first()[i] == es[i + 1]);
                }
                lemma_emit_entries_error_kind(es.drop_first(), depth, c2, cap);
            }
        }
    }
}

/// Law: encoding into a buffer of `cap` bytes from offset `cur` succeeds
/// exactly when the value is well formed and its encoding fits, and then
/// it ends right after the encoding.
pub proof fn law_emit_succeeds(t: BencodeTerm, depth: int, cur: int, cap: int)
    requires
        0 <= cur <= cap,
    ensures
        emit(t, depth, cur, cap) is Ok <==> well_formed(t, depth) && cur + encode(t).len() <= cap,
        emit(t, depth, cur, cap) matches Ok(c) ==> c == cur + encode(t).len(),
{
    lemma_emit_value(t, depth, cur, cap);
}

} // verus!
