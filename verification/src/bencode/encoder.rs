//! Canonical Bencode encoder writing into a caller-provided buffer.

use vstd::prelude::*;
use crate::error::{RcoError, BENCODE_MAX_DEPTH};
use crate::bencode::grammar::BencodeValue;
use crate::bencode::model::{
    BencodeTerm, decimal, int_text, encode, encode_bytes, encode_items, encode_entries, keys_of,
    key_fault, saturate, emit, emit_run, emit_chunk, emit_bytes, emit_items, emit_entries,
    well_formed,
};
use crate::bencode::laws::{law_emit_succeeds, lemma_emit_error_kind};
use crate::bencode::decoder::{terms, entry_terms, lemma_list_view, lemma_dict_view};
use crate::bencode::sort::{validate_key_order, key_views};
use crate::bencode::lemmas::{
    lemma_decimal, lemma_encode_items_append, lemma_encode_entries_append, lemma_encode_items_single,
    lemma_encode_entries_single,
};

verus! {

/// `data` written over `old` from offset `at`.
pub open spec fn splice(old: Seq<u8>, at: int, data: Seq<u8>) -> Seq<u8> {
    old.subrange(0, at) + data + old.subrange(at + data.len(), old.len() as int)
}

proof fn lemma_splice_twice(b: Seq<u8>, c: int, x: Seq<u8>, y: Seq<u8>)
    requires
        0 <= c,
        c + x.len() + y.len() <= b.len(),
    ensures
        splice(splice(b, c, x), c + x.len(), y) == splice(b, c, x + y),
        splice(b, c, x).len() == b.len(),
{
    assert(splice(splice(b, c, x), c + x.len(), y) =~= splice(b, c, x + y));
}

proof fn lemma_splice_empty(b: Seq<u8>, c: int)
    requires
        0 <= c <= b.len(),
    ensures
        splice(b, c, Seq::empty()) == b,
{
    assert(splice(b, c, Seq::empty()) =~= b);
}

proof fn lemma_runs(cur: int, a: int, b: int, cap: int)
    requires
        0 <= a,
        0 <= b,
        cur <= cap,
    ensures
        match emit_run(cur, a, cap) {
            Err(e) => emit_run(cur, a + b, cap) == Err::<int, RcoError>(e),
            Ok(c) => emit_run(c, b, cap) == emit_run(cur, a + b, cap),
        },
{
}

proof fn lemma_emit_items_step(items: Seq<BencodeTerm>, i: int, depth: int, cur: int, cap: int)
    requires
        0 <= i < items.len(),
    ensures
        emit_items(items.skip(i), depth, cur, cap) == match emit(items[i], depth + 1, cur, cap) {
            Err(e) => Err(e),
            Ok(c) => emit_items(items.skip(i + 1), depth, c, cap),
        },
{
    assert(items.skip(i).drop_first() =~= items.skip(i + 1));
}

proof fn lemma_emit_entries_step(es: Seq<(Seq<u8>, BencodeTerm)>, i: int, depth: int, cur: int, cap: int)
    requires
        0 <= i < es.len(),
    ensures
        emit_entries(es.skip(i), depth, cur, cap) == match emit_bytes(es[i].0, cur, cap) {
            Err(e) => Err(e),
            Ok(c1) => match emit(es[i].1, depth + 1, c1, cap) {
                Err(e) => Err(e),
                Ok(c2) => emit_entries(es.skip(i + 1), depth, c2, cap),
            },
        },
{
    assert(es.skip(i).drop_first() =~= es.skip(i + 1));
}

/// Decimal digits of a nonnegative number, most significant first.
pub fn decimal_digits(n: u128) -> (r: Vec<u8>)
    ensures
        r@ == decimal(n as nat),
{
    let mut out: Vec<u8> = Vec::new();
    let mut v = n;
    loop
        invariant
            decimal(n as nat) == decimal(v as nat) + out@,
        decreases v,
    {
        let d = (v % 10) as u8;
        let ghost old_out = out@;
        out.insert(0, d + 48);
        if v < 10 {
            assert(decimal(v as nat) == seq![(v + 48) as u8]);
            assert(out@ =~= seq![(v + 48) as u8] + old_out);
            return out;
        }
        assert(decimal(v as nat) == decimal((v / 10) as nat) + seq![((v % 10) + 48) as u8]);
        assert(out@ =~= seq![((v % 10) + 48) as u8] + old_out);
        v = v / 10;
    }
}

/// Arena-style encoder writing into a caller-provided buffer.
pub struct BencodeEncoder<'a> {
    /// The output buffer.
    pub buf: &'a mut [u8],
    /// Offset of the next byte to write.
    pub cursor: usize,
}

impl<'a> BencodeEncoder<'a> {
    /// Creates an encoder writing into `buf` from its start.
    pub fn new(buf: &'a mut [u8]) -> (e: Self)
        ensures
            e.cursor == 0,
            e.buf@ == old(buf)@,
            final(buf)@ == final(e.buf)@,
    {
        BencodeEncoder { buf, cursor: 0 }
    }

    /// Encodes `value` from the start of the buffer and returns the number of
    /// bytes written. The outcome is that of `emit`: the encoding when the
    /// value is well formed and fits, otherwise the first error met.
    pub fn encode(&mut self, value: &BencodeValue) -> (r: Result<usize, RcoError>)
        ensures
            final(self).buf@.len() == old(self).buf@.len(),
            final(final(self).buf)@ == final(old(self).buf)@,
            match emit(value@, 0, 0, old(self).buf@.len() as int) {
                Ok(c) => r == Ok::<usize, RcoError>(c as usize)
                    && c == encode(value@).len()
                    && final(self).cursor == c
                    && final(self).buf@ == splice(old(self).buf@, 0, encode(value@)),
                Err(e) => r == Err::<usize, RcoError>(e),
            },
            r is Ok <==> well_formed(value@, 0) && encode(value@).len() <= old(self).buf@.len(),
            well_formed(value@, 0) && encode(value@).len() > old(self).buf@.len()
                ==> (r matches Err(e) && e is BufferTooSmall),
            r matches Ok(n) ==> {
                &&& n == encode(value@).len()
                &&& final(self).buf@.subrange(0, n as int) == encode(value@)
                &&& final(self).buf@.subrange(n as int, old(self).buf@.len() as int)
                    == old(self).buf@.subrange(n as int, old(self).buf@.len() as int)
            },
    {
        proof {
            law_emit_succeeds(value@, 0, 0, old(self).buf@.len() as int);
            if well_formed(value@, 0) {
                lemma_emit_error_kind(value@, 0, 0, old(self).buf@.len() as int);
            }
        }
        self.cursor = 0;
        match self.encode_recursive(value, 0) {
            Ok(_) => {},
            Err(e) => {
                return Err(e);
            },
        }
        proof {
            let n = encode(value@).len() as int;
            let b = splice(old(self).buf@, 0, encode(value@));
            assert(b.subrange(0, n) =~= encode(value@));
            assert(b.subrange(n, old(self).buf@.len() as int) =~= old(self).buf@.subrange(n, old(self).buf@.len() as int));
        }
        Ok(self.cursor)
    }

    fn encode_recursive(&mut self, value: &BencodeValue, depth: usize) -> (r: Result<(), RcoError>)
        requires
            old(self).cursor <= old(self).buf@.len(),
        ensures
            final(self).buf@.len() == old(self).buf@.len(),
            final(final(self).buf)@ == final(old(self).buf)@,
            match emit(value@, depth as int, old(self).cursor as int, old(self).buf@.len() as int) {
                Ok(c) => r is Ok
                    && c == old(self).cursor + encode(value@).len()
                    && final(self).cursor == c
                    && final(self).buf@ == splice(old(self).buf@, old(self).cursor as int, encode(value@)),
                Err(e) => r == Err::<(), RcoError>(e),
            },
        decreases 17 - depth, 1int,
    {
        if depth > BENCODE_MAX_DEPTH {
            return Err(RcoError::RecursionDepthExceeded { depth });
        }
        match value {
            BencodeValue::Bytes(b) => self.encode_bytes(b.as_slice()),
            BencodeValue::Integer(n) => self.encode_integer(*n),
            BencodeValue::List(items) => {
                proof {
                    lemma_list_view(*items);
                }
                self.encode_list(items, depth)
            },
            BencodeValue::Dict(entries) => {
                proof {
                    lemma_dict_view(*entries);
                }
                self.encode_dict(entries, depth)
            },
        }
    }

    /// Encodes a byte string `<len>:<bytes>`.
    fn encode_bytes(&mut self, data: &[u8]) -> (r: Result<(), RcoError>)
        requires
            old(self).cursor <= old(self).buf@.len(),
        ensures
            final(self).buf@.len() == old(self).buf@.len(),
            final(final(self).buf)@ == final(old(self).buf)@,
            match emit_bytes(data@, old(self).cursor as int, old(self).buf@.len() as int) {
                Ok(c) => r is Ok
                    && c == old(self).cursor + encode_bytes(data@).len()
                    && final(self).cursor == c
                    && final(self).buf@ == splice(old(self).buf@, old(self).cursor as int, encode_bytes(data@)),
                Err(e) => r == Err::<(), RcoError>(e),
            },
    {
        let ghost b0 = self.buf@;
        let ghost c0 = self.cursor as int;
        let ghost cap = self.buf@.len() as int;
        let ghost len_text = decimal(data@.len());
        match self.write_integer_ascii(data.len() as i128, false) {
            Ok(_) => {},
            Err(e) => {
                proof {
                    lemma_runs(c0, len_text.len() as int, 1, cap);
                }
                return Err(e);
            },
        }
        let ghost c1 = self.cursor as int;
        let ghost b1 = self.buf@;
        match self.write_byte(58) {
            Ok(_) => {},
            Err(e) => {
                proof {
                    lemma_runs(c0, len_text.len() as int, 1, cap);
                }
                return Err(e);
            },
        }
        proof {
            lemma_runs(c0, len_text.len() as int, 1, cap);
            lemma_splice_twice(b0, c0, len_text, seq![58u8]);
        }
        let ghost c2 = self.cursor as int;
        let ghost b2 = self.buf@;
        match self.write_bytes(data) {
            Ok(_) => {},
            Err(e) => {
                return Err(e);
            },
        }
        proof {
            lemma_splice_twice(b0, c0, len_text + seq![58u8], data@);
        }
        Ok(())
    }

    /// Encodes an integer `i<number>e`.
    fn encode_integer(&mut self, n: i128) -> (r: Result<(), RcoError>)
        requires
            old(self).cursor <= old(self).buf@.len(),
        ensures
            final(self).buf@.len() == old(self).buf@.len(),
            final(final(self).buf)@ == final(old(self).buf)@,
            match emit_run(old(self).cursor as int, int_text(n).len() + 2int, old(self).buf@.len() as int) {
                Ok(c) => r is Ok
                    && final(self).cursor == c
                    && final(self).buf@ == splice(
                        old(self).buf@,
                        old(self).cursor as int,
                        seq![105u8] + int_text(n) + seq![101u8],
                    ),
                Err(e) => r == Err::<(), RcoError>(e),
            },
    {
        let ghost b0 = self.buf@;
        let ghost c0 = self.cursor as int;
        let ghost cap = self.buf@.len() as int;
        let ghost text = int_text(n);
        proof {
            lemma_runs(c0, 1, text.len() + 1int, cap);
        }
        match self.write_byte(105) {
            Ok(_) => {},
            Err(e) => {
                return Err(e);
            },
        }
        proof {
            lemma_runs(c0 + 1, text.len() as int, 1, cap);
        }
        match self.write_integer_ascii(n, true) {
            Ok(_) => {},
            Err(e) => {
                return Err(e);
            },
        }
        proof {
            lemma_splice_twice(b0, c0, seq![105u8], text);
        }
        match self.write_byte(101) {
            Ok(_) => {},
            Err(e) => {
                return Err(e);
            },
        }
        proof {
            lemma_splice_twice(b0, c0, seq![105u8] + text, seq![101u8]);
        }
        Ok(())
    }

    /// Encodes a list `l<elements>e`.
    #[verifier::loop_isolation(false)]
    fn encode_list(&mut self, items: &Vec<BencodeValue>, depth: usize) -> (r: Result<(), RcoError>)
        requires
            depth <= 16,
            old(self).cursor <= old(self).buf@.len(),
        ensures
            final(self).buf@.len() == old(self).buf@.len(),
            final(final(self).buf)@ == final(old(self).buf)@,
            match emit(BencodeTerm::List(terms(items@)), depth as int, old(self).cursor as int, old(self).buf@.len() as int) {
                Ok(c) => r is Ok
                    && c == old(self).cursor + encode(BencodeTerm::List(terms(items@))).len()
                    && final(self).cursor == c
                    && final(self).buf@ == splice(old(self).buf@, old(self).cursor as int, encode(BencodeTerm::List(terms(items@)))),
                Err(e) => r == Err::<(), RcoError>(e),
            },
        decreases 17 - depth, 0int,
    {
        let ghost b0 = self.buf@;
        let ghost c0 = self.cursor as int;
        let ghost cap = self.buf@.len() as int;
        let ghost ts = terms(items@);
        match self.write_byte(108) {
            Ok(_) => {},
            Err(e) => {
                return Err(e);
            },
        }
        let ghost c1 = self.cursor as int;
        assert(ts.skip(0) =~= ts);
        assert(ts.subrange(0, 0) =~= Seq::<BencodeTerm>::empty());
        let mut i: usize = 0;
        while i < items.len()
            invariant
                0 <= i <= items@.len(),
                ts == terms(items@),
                c1 == c0 + 1,
                self.cursor <= self.buf@.len(),
                self.buf@.len() == cap,
                final(self.buf)@ == final(old(self).buf)@,
                self.cursor == c1 + encode_items(ts.subrange(0, i as int)).len(),
                self.buf@ == splice(b0, c0, seq![108u8] + encode_items(ts.subrange(0, i as int))),
                emit_items(ts, depth as int, c1, cap) == emit_items(ts.skip(i as int), depth as int, self.cursor as int, cap),
            decreases items.len() - i,
        {
            let ghost ci = self.cursor as int;
            let ghost bi = self.buf@;
            proof {
                lemma_emit_items_step(ts, i as int, depth as int, ci, cap);
            }
            match self.encode_recursive(&items[i], depth + 1) {
                Ok(_) => {},
                Err(e) => {
                    return Err(e);
                },
            }
            proof {
                assert(ts.subrange(0, i + 1) =~= ts.subrange(0, i as int) + seq![ts[i as int]]);
                lemma_encode_items_append(ts.subrange(0, i as int), seq![ts[i as int]]);
                lemma_encode_items_single(ts[i as int]);
                lemma_splice_twice(b0, c0, seq![108u8] + encode_items(ts.subrange(0, i as int)), encode(ts[i as int]));
                assert(seq![108u8] + encode_items(ts.subrange(0, i + 1)) =~= seq![108u8] + encode_items(ts.subrange(0, i as int)) + encode(ts[i as int]));
            }
            i = i + 1;
        }
        assert(ts.subrange(0, i as int) =~= ts);
        assert(ts.skip(i as int) =~= Seq::<BencodeTerm>::empty());
        match self.write_byte(101) {
            Ok(_) => {},
            Err(e) => {
                return Err(e);
            },
        }
        proof {
            lemma_splice_twice(b0, c0, seq![108u8] + encode_items(ts), seq![101u8]);
        }
        Ok(())
    }

    /// Encodes a dictionary `d<key><value>...e` after checking that its keys
    /// are strictly ascending.
    #[verifier::loop_isolation(false)]
    #[verifier::rlimit(50)]
    fn encode_dict(&mut self, entries: &Vec<(Vec<u8>, BencodeValue)>, depth: usize) -> (r: Result<(), RcoError>)
        requires
            depth <= 16,
            old(self).cursor <= old(self).buf@.len(),
        ensures
            final(self).buf@.len() == old(self).buf@.len(),
            final(final(self).buf)@ == final(old(self).buf)@,
            match emit(BencodeTerm::Dict(entry_terms(entries@)), depth as int, old(self).cursor as int, old(self).buf@.len() as int) {
                Ok(c) => r is Ok
                    && c == old(self).cursor + encode(BencodeTerm::Dict(entry_terms(entries@))).len()
                    && final(self).cursor == c
                    && final(self).buf@ == splice(old(self).buf@, old(self).cursor as int, encode(BencodeTerm::Dict(entry_terms(entries@)))),
                Err(e) => r == Err::<(), RcoError>(e),
            },
        decreases 17 - depth, 0int,
    {
        let ghost b0 = self.buf@;
        let ghost c0 = self.cursor as int;
        let ghost cap = self.buf@.len() as int;
        let ghost es = entry_terms(entries@);
        let mut keys: Vec<&[u8]> = Vec::new();
        let mut k: usize = 0;
        while k < entries.len()
            invariant
                0 <= k <= entries@.len(),
                keys@.len() == k,
                forall|j: int| 0 <= j < k ==> (#[trigger] keys@[j])@ == entries@[j].0@,
            decreases entries.len() - k,
        {
            keys.push(entries[k].0.as_slice());
            k = k + 1;
        }
        assert(key_views(keys@) =~= keys_of(es));
        match validate_key_order(keys.as_slice()) {
            Ok(_) => {},
            Err(e) => {
                return Err(e);
            },
        }
        match self.write_byte(100) {
            Ok(_) => {},
            Err(e) => {
                return Err(e);
            },
        }
        let ghost c1 = self.cursor as int;
        assert(es.skip(0) =~= es);
        assert(es.subrange(0, 0) =~= Seq::<(Seq<u8>, BencodeTerm)>::empty());
        let mut i: usize = 0;
        while i < entries.len()
            invariant
                0 <= i <= entries@.len(),
                es == entry_terms(entries@),
                c1 == c0 + 1,
                self.cursor <= self.buf@.len(),
                self.buf@.len() == cap,
                final(self.buf)@ == final(old(self).buf)@,
                self.cursor == c1 + encode_entries(es.subrange(0, i as int)).len(),
                self.buf@ == splice(b0, c0, seq![100u8] + encode_entries(es.subrange(0, i as int))),
                emit_entries(es, depth as int, c1, cap) == emit_entries(es.skip(i as int), depth as int, self.cursor as int, cap),
            decreases entries.len() - i,
        {
            let ghost ci = self.cursor as int;
            let ghost pre = seq![100u8] + encode_entries(es.subrange(0, i as int));
            proof {
                lemma_emit_entries_step(es, i as int, depth as int, ci, cap);
            }
            match self.encode_bytes(entries[i].0.as_slice()) {
                Ok(_) => {},
                Err(e) => {
                    return Err(e);
                },
            }
            proof {
                lemma_splice_twice(b0, c0, pre, encode_bytes(es[i as int].0));
            }
            match self.encode_recursive(&entries[i].1, depth + 1) {
                Ok(_) => {},
                Err(e) => {
                    return Err(e);
                },
            }
            proof {
                let e0 = es[i as int];
                assert(es.subrange(0, i + 1) =~= es.subrange(0, i as int) + seq![e0]);
                lemma_encode_entries_append(es.subrange(0, i as int), seq![e0]);
                lemma_encode_entries_single(e0);
                lemma_splice_twice(b0, c0, pre + encode_bytes(e0.0), encode(e0.1));
                assert(seq![100u8] + encode_entries(es.subrange(0, i + 1)) =~= pre + encode_bytes(e0.0) + encode(e0.1));
            }
            i = i + 1;
        }
        assert(es.subrange(0, i as int) =~= es);
        assert(es.skip(i as int) =~= Seq::<(Seq<u8>, BencodeTerm)>::empty());
        match self.write_byte(101) {
            Ok(_) => {},
            Err(e) => {
                return Err(e);
            },
        }
        proof {
            lemma_splice_twice(b0, c0, seq![100u8] + encode_entries(es), seq![101u8]);
        }
        Ok(())
    }

    /// Writes a single byte at the cursor.
    fn write_byte(&mut self, b: u8) -> (r: Result<(), RcoError>)
        requires
            old(self).cursor <= old(self).buf@.len(),
        ensures
            final(self).buf@.len() == old(self).buf@.len(),
            final(final(self).buf)@ == final(old(self).buf)@,
            match emit_run(old(self).cursor as int, 1, old(self).buf@.len() as int) {
                Ok(c) => r is Ok
                    && final(self).cursor == c
                    && final(self).buf@ == splice(old(self).buf@, old(self).cursor as int, seq![b]),
                Err(e) => r == Err::<(), RcoError>(e),
            },
    {
        if self.cursor >= self.buf.len() {
            let required = if self.cursor == usize::MAX { usize::MAX } else { self.cursor + 1 };
            return Err(RcoError::BufferTooSmall { required, available: self.buf.len() });
        }
        let ghost b0 = self.buf@;
        self.buf[self.cursor] = b;
        assert(self.buf@ =~= splice(b0, self.cursor as int, seq![b]));
        self.cursor = self.cursor + 1;
        Ok(())
    }

    /// Writes a byte slice at the cursor in one step.
    #[verifier::loop_isolation(false)]
    fn write_bytes(&mut self, data: &[u8]) -> (r: Result<(), RcoError>)
        requires
            old(self).cursor <= old(self).buf@.len(),
        ensures
            final(self).buf@.len() == old(self).buf@.len(),
            final(final(self).buf)@ == final(old(self).buf)@,
            match emit_chunk(old(self).cursor as int, data@.len() as int, old(self).buf@.len() as int) {
                Ok(c) => r is Ok
                    && final(self).cursor == c
                    && final(self).buf@ == splice(old(self).buf@, old(self).cursor as int, data@),
                Err(e) => r == Err::<(), RcoError>(e),
            },
    {
        if data.len() > self.buf.len() - self.cursor {
            let required = if data.len() > usize::MAX - self.cursor { usize::MAX } else { self.cursor + data.len() };
            return Err(RcoError::BufferTooSmall { required, available: self.buf.len() });
        }
        let ghost b0 = self.buf@;
        let ghost c0 = self.cursor as int;
        let mut i: usize = 0;
        while i < data.len()
            invariant
                0 <= i <= data@.len(),
                c0 + data@.len() <= b0.len(),
                self.cursor == c0,
                self.buf@.len() == b0.len(),
                final(self.buf)@ == final(old(self).buf)@,
                self.buf@ == splice(b0, c0, data@.subrange(0, i as int)),
            decreases data.len() - i,
        {
            let ghost bi = self.buf@;
            self.buf[self.cursor + i] = data[i];
            assert(self.buf@ =~= splice(b0, c0, data@.subrange(0, i + 1)));
            i = i + 1;
        }
        assert(data@.subrange(0, i as int) =~= data@);
        self.cursor = self.cursor + data.len();
        Ok(())
    }

    #[verifier::loop_isolation(false)]
    /// Writes an integer in ASCII decimal. With `allow_negative` false the
    /// value is a string length and is never negative.
    fn write_integer_ascii(&mut self, n: i128, allow_negative: bool) -> (r: Result<(), RcoError>)
        requires
            old(self).cursor <= old(self).buf@.len(),
            allow_negative || n >= 0,
        ensures
            final(self).buf@.len() == old(self).buf@.len(),
            final(final(self).buf)@ == final(old(self).buf)@,
            match emit_run(old(self).cursor as int, int_text(n).len() as int, old(self).buf@.len() as int) {
                Ok(c) => r is Ok
                    && final(self).cursor == c
                    && final(self).buf@ == splice(old(self).buf@, old(self).cursor as int, int_text(n)),
                Err(e) => r == Err::<(), RcoError>(e),
            },
    {
        let ghost b0 = self.buf@;
        let ghost c0 = self.cursor as int;
        let ghost cap = self.buf@.len() as int;
        if n == 0 {
            return self.write_byte(48);
        }
        let mut magnitude: u128 = 0;
        if n < 0 {
            if !allow_negative {
                return Err(RcoError::InvalidGrammar { offset: self.cursor, detail: "negative string length" });
            }
            proof {
                lemma_runs(c0, 1, int_text(n).len() - 1, cap);
            }
            match self.write_byte(45) {
                Ok(_) => {},
                Err(e) => {
                    return Err(e);
                },
            }
            magnitude = ((-(n + 1)) as u128) + 1;
        } else {
            magnitude = n as u128;
        }
        let digits = decimal_digits(magnitude);
        let ghost c1 = self.cursor as int;
        let ghost b1 = self.buf@;
        let ghost prefix = if n < 0 { seq![45u8] } else { Seq::<u8>::empty() };
        proof {
            if n >= 0 {
                lemma_splice_empty(b0, c0);
            }
            assert(int_text(n) == prefix + digits@);
        }
        let mut i: usize = 0;
        while i < digits.len()
            invariant
                0 <= i <= digits@.len(),
                c1 == c0 + prefix.len(),
                self.cursor == c1 + i,
                self.cursor <= self.buf@.len(),
                self.buf@.len() == cap,
                final(self.buf)@ == final(old(self).buf)@,
                self.buf@ == splice(b0, c0, prefix + digits@.subrange(0, i as int)),
                emit_run(c0, int_text(n).len() as int, cap) == emit_run(self.cursor as int, digits@.len() - i, cap),
                int_text(n) == prefix + digits@,
            decreases digits.len() - i,
        {
            proof {
                lemma_runs(self.cursor as int, 1, digits@.len() - i - 1, cap);
            }
            match self.write_byte(digits[i]) {
                Ok(_) => {},
                Err(e) => {
                    return Err(e);
                },
            }
            proof {
                lemma_splice_twice(b0, c0, prefix + digits@.subrange(0, i as int), seq![digits@[i as int]]);
                assert(prefix + digits@.subrange(0, i + 1) =~= prefix + digits@.subrange(0, i as int) + seq![digits@[i as int]]);
            }
            i = i + 1;
        }
        assert(digits@.subrange(0, i as int) =~= digits@);
        Ok(())
    }
}

/// Encodes a value into a new buffer sized by `encoded_size`.
pub fn encode_to_vec(value: &BencodeValue) -> (r: Result<Vec<u8>, RcoError>)
    requires
        encode(value@).len() <= usize::MAX,
    ensures
        match emit(value@, 0, 0, encode(value@).len() as int) {
            Ok(c) => r matches Ok(bytes) && bytes@ == encode(value@),
            Err(e) => r == Err::<Vec<u8>, RcoError>(e),
        },
{
    let size = value.encoded_size();
    let mut buf = vec![0u8; size];
    let ghost b0 = buf@;
    let written = {
        let mut encoder = BencodeEncoder::new(buf.as_mut_slice());
        encoder.encode(value)
    };
    match written {
        Ok(n) => {
            assert(buf@.subrange(0, n as int) =~= encode(value@));
            buf.truncate(n);
            Ok(buf)
        },
        Err(e) => Err(e),
    }
}

} // verus!
