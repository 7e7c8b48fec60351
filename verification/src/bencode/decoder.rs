//! Strict Bencode decoder: parses a byte stream into `BencodeValue`s and
//! rejects every input outside the canonical grammar.

use vstd::prelude::*;
use crate::error::{RcoError, BENCODE_MAX_DEPTH};
use crate::bencode::grammar::BencodeValue;
use crate::bencode::model::{
    BencodeTerm, is_digit, digit_end, digits_value, end_of_input, parse_length, parse_bytes,
    parse_integer, parse_value, parse_items, parse_entries, order_fault, lex_lt, decode_spec,
};
use crate::bencode::lemmas::{
    lemma_digit_end, lemma_digits_value_mono, lemma_lex_trichotomy, lemma_parse_advances,
    lemma_parse_bytes_advances,
};
use crate::bencode::sort::{lex_compare, LexOrder};

use crate::bencode::canonical::law_decode_consumes_one_value;

verus! {

/// Strict decoder over a byte slice with a cursor.
pub struct BencodeDecoder<'a> {
    data: &'a [u8],
    pos: usize,
}

impl<'a> BencodeDecoder<'a> {
    #[verifier::type_invariant]
    spec fn cursor_in_bounds(&self) -> bool {
        self.pos <= self.data@.len()
    }

    /// The bytes being decoded.
    pub closed spec fn input(&self) -> Seq<u8> {
        self.data@
    }

    /// The cursor: the offset of the next byte to read.
    pub closed spec fn cursor(&self) -> int {
        self.pos as int
    }

    /// Creates a decoder over `data` with its cursor at the start.
    pub fn new(data: &'a [u8]) -> (d: Self)
        ensures
            d.input() == data@,
            d.cursor() == 0,
    {
        BencodeDecoder { data, pos: 0 }
    }

    /// Decodes one value at the cursor. On success the cursor moves past the
    /// value; the outcome is that of the strict parser at the old cursor.
    pub fn decode(&mut self) -> (r: Result<BencodeValue, RcoError>)
        ensures
            final(self).input() == old(self).input(),
            match parse_value(old(self).input(), old(self).cursor(), 0) {
                Ok((t, q)) => r matches Ok(v) && v@ == t && final(self).cursor() == q,
                Err(e) => r == Err::<BencodeValue, RcoError>(e),
            },
            r matches Ok(v) ==> {
                &&& old(self).cursor() < final(self).cursor() <= old(self).input().len()
                &&& decode_spec(old(self).input().subrange(old(self).cursor() as int, final(self).cursor() as int))
                    == Ok::<BencodeTerm, RcoError>(v@)
            },
    {
        proof {
            use_type_invariant(&*self);
            assert(self.data.len() == self.data@.len());
            if parse_value(self.input(), self.cursor() as int, 0) is Ok {
                law_decode_consumes_one_value(self.input(), self.cursor() as int);
            }
        }
        self.decode_recursive(0)
    }

    /// Number of bytes after the cursor.
    pub fn remaining(&self) -> (n: usize)
        ensures
            n == self.input().len() - self.cursor(),
    {
        proof {
            use_type_invariant(self);
        }
        self.data.len() - self.pos
    }

    /// The cursor's byte offset.
    pub fn offset(&self) -> (n: usize)
        ensures
            n == self.cursor(),
    {
        self.pos
    }

    fn decode_recursive(&mut self, depth: usize) -> (r: Result<BencodeValue, RcoError>)
        ensures
            final(self).data == old(self).data,
            match parse_value(old(self).data@, old(self).pos as int, depth as int) {
                Ok((t, q)) => r matches Ok(v) && v@ == t && final(self).pos == q,
                Err(e) => r == Err::<BencodeValue, RcoError>(e),
            },
        decreases 17 - depth, 1int,
    {
        proof {
            use_type_invariant(&*self);
        }
        if depth > BENCODE_MAX_DEPTH {
            return Err(RcoError::RecursionDepthExceeded { depth });
        }
        let byte = match self.peek() {

            Ok(x) => x,

            Err(e) => {

                return Err(e);

            },

        };
        if byte == 105 {
            self.decode_integer()
        } else if byte == 108 {
            self.decode_list(depth)
        } else if byte == 100 {
            self.decode_dict(depth)
        } else if 48 <= byte && byte <= 57 {
            self.decode_bytes()
        } else {
            Err(RcoError::InvalidGrammar { offset: self.pos, detail: "unexpected byte at start of value" })
        }
    }

    /// Decodes a byte string `<len>:<bytes>` and returns its bytes.
    fn decode_byte_string(&mut self) -> (r: Result<Vec<u8>, RcoError>)
        ensures
            final(self).data == old(self).data,
            match parse_bytes(old(self).data@, old(self).pos as int) {
                Ok((b, q)) => r matches Ok(v) && v@ == b && final(self).pos == q,
                Err(e) => r == Err::<Vec<u8>, RcoError>(e),
            },
    {
        proof {
            use_type_invariant(&*self);
        }
        let len = match self.read_ascii_usize() {

            Ok(x) => x,

            Err(e) => {

                return Err(e);

            },

        };
        let colon = match self.next_byte() {

            Ok(x) => x,

            Err(e) => {

                return Err(e);

            },

        };
        if colon != 58 {
            return Err(RcoError::InvalidGrammar { offset: self.pos - 1, detail: "expected ':' after string length" });
        }
        proof {
            use_type_invariant(&*self);
        }
        if len > self.data.len() - self.pos {
            return Err(RcoError::InvalidGrammar { offset: self.pos, detail: "string length exceeds remaining input" });
        }
        let bytes = vstd::slice::slice_to_vec(vstd::slice::slice_subrange(self.data, self.pos, self.pos + len));
        self.pos = self.pos + len;
        Ok(bytes)
    }

    /// Decodes a byte string value: `<len>:<bytes>`.
    fn decode_bytes(&mut self) -> (r: Result<BencodeValue, RcoError>)
        ensures
            final(self).data == old(self).data,
            match parse_bytes(old(self).data@, old(self).pos as int) {
                Ok((b, q)) => r matches Ok(v) && v@ == BencodeTerm::Bytes(b) && final(self).pos == q,
                Err(e) => r == Err::<BencodeValue, RcoError>(e),
            },
    {
        let bytes = match self.decode_byte_string() {

            Ok(x) => x,

            Err(e) => {

                return Err(e);

            },

        };
        Ok(BencodeValue::Bytes(bytes))
    }

    /// Decodes an integer `i<number>e`: no leading zeros, no negative zero.
    #[verifier::loop_isolation(false)]
    fn decode_integer(&mut self) -> (r: Result<BencodeValue, RcoError>)
        requires
            old(self).pos < old(self).data@.len(),
            old(self).data@[old(self).pos as int] == 105,
        ensures
            final(self).data == old(self).data,
            match parse_integer(old(self).data@, old(self).pos as int) {
                Ok((n, q)) => r matches Ok(v) && v@ == BencodeTerm::Integer(n) && final(self).pos == q,
                Err(e) => r == Err::<BencodeValue, RcoError>(e),
            },
    {
        let ghost s = self.data@;
        let ghost d0 = self.data;
        let start = self.pos;
        match self.expect_byte(105) {

            Ok(_) => {},

            Err(e) => {

                return Err(e);

            },

        }
        let c = match self.peek() {
            Ok(x) => x,
            Err(e) => {
                return Err(e);
            },
        };
        let negative = c == 45;
        if negative {
            self.pos = self.pos + 1;
        }
        let digit_start = self.pos;
        proof {
            use_type_invariant(&*self);
            lemma_digit_end(s, digit_start as int);
        }
        while self.pos < self.data.len() && 48 <= self.data[self.pos] && self.data[self.pos] <= 57
            invariant
                self.data@ == s,
                self.data == d0,
                digit_start <= self.pos <= s.len(),
                digit_end(s, self.pos as int) == digit_end(s, digit_start as int),
                self.pos <= digit_end(s, digit_start as int),
            decreases s.len() - self.pos,
        {
            self.pos = self.pos + 1;
            proof {
                lemma_digit_end(s, self.pos as int);
            }
        }
        let digit_end_pos = self.pos;
        let ghost de = digit_end(s, digit_start as int);
        assert(digit_end_pos == de);
        if digit_start == digit_end_pos {
            return Err(RcoError::InvalidInteger { offset: start });
        }
        if digit_end_pos - digit_start > 1 && self.data[digit_start] == 48 {
            return Err(RcoError::InvalidInteger { offset: start });
        }
        if negative && digit_end_pos - digit_start == 1 && self.data[digit_start] == 48 {
            return Err(RcoError::InvalidInteger { offset: start });
        }
        match self.expect_byte(101) {

            Ok(_) => {},

            Err(e) => {

                return Err(e);

            },

        }
        let mut value: i128 = 0;
        let mut i = digit_start;
        while i < digit_end_pos
            invariant
                self.data@ == s,
                self.data == d0,
                digit_start <= i <= digit_end_pos,
                digit_end_pos == de,
                digit_start <= de <= s.len(),
                forall|k: int| digit_start <= k < de ==> is_digit(#[trigger] s[k]),
                value == digits_value(s, digit_start as int, i as int),
            decreases digit_end_pos - i,
        {
            assert(is_digit(s[i as int]));
            let d = self.data[i] - 48;
            proof {
                lemma_digits_value_mono(s, digit_start as int, i + 1, de);
            }
            match value.checked_mul(10) {
                None => {
                    return Err(RcoError::InvalidInteger { offset: start });
                },
                Some(v10) => match v10.checked_add(d as i128) {
                    None => {
                        return Err(RcoError::InvalidInteger { offset: start });
                    },
                    Some(v) => {
                        value = v;
                    },
                },
            }
            i = i + 1;
        }
        if negative {
            value = -value;
        }
        Ok(BencodeValue::Integer(value))
    }

    /// Decodes a list `l<elements>e`.
    #[verifier::loop_isolation(false)]
    fn decode_list(&mut self, depth: usize) -> (r: Result<BencodeValue, RcoError>)
        requires
            depth <= 16,
            old(self).pos < old(self).data@.len(),
            old(self).data@[old(self).pos as int] == 108,
        ensures
            final(self).data == old(self).data,
            match parse_items(old(self).data@, old(self).pos + 1, depth as int) {
                Ok((items, q)) => r matches Ok(v) && v@ == BencodeTerm::List(items) && final(self).pos == q,
                Err(e) => r == Err::<BencodeValue, RcoError>(e),
            },
        decreases 17 - depth, 0int,
    {
        let ghost s = self.data@;
        let ghost d0 = self.data;
        match self.expect_byte(108) {

            Ok(_) => {},

            Err(e) => {

                return Err(e);

            },

        }
        let ghost start = self.pos as int;
        let mut items: Vec<BencodeValue> = Vec::new();
        assert(terms(items@) + Seq::<BencodeTerm>::empty() == Seq::<BencodeTerm>::empty());
        loop
            invariant
                self.data@ == s,
                self.data == d0,
                depth <= 16,
                start <= self.pos <= s.len(),
                match parse_items(s, self.pos as int, depth as int) {
                    Ok((rest, q)) => parse_items(s, start, depth as int) == Ok::<(Seq<BencodeTerm>, int), RcoError>((terms(items@) + rest, q)),
                    Err(e) => parse_items(s, start, depth as int) == Err::<(Seq<BencodeTerm>, int), RcoError>(e),
                },
            decreases s.len() - self.pos,
        {
            let b = match self.peek() {

                Ok(x) => x,

                Err(e) => {

                    return Err(e);

                },

            };
            if b == 101 {
                self.pos = self.pos + 1;
                proof {
                    lemma_list_view(items);
                    assert(terms(items@) + Seq::<BencodeTerm>::empty() == terms(items@));
                }
                return Ok(BencodeValue::List(items));
            }
            let ghost p0 = self.pos as int;
            proof {
                lemma_parse_advances(s, p0, depth + 1);
            }
            let item = match self.decode_recursive(depth + 1) {

                Ok(x) => x,

                Err(e) => {

                    return Err(e);

                },

            };
            let ghost t = item@;
            let ghost old_items = items@;
            items.push(item);
            proof {
                assert(terms(items@) == terms(old_items) + seq![t]);
                match parse_items(s, self.pos as int, depth as int) {
                    Ok((rest, q)) => {
                        assert(terms(items@) + rest == terms(old_items) + (seq![t] + rest));
                    },
                    Err(e) => {},
                }
            }
        }
    }

    /// Decodes a dictionary `d<key><value>...e`, enforcing strictly
    /// ascending keys.
    #[verifier::loop_isolation(false)]
    fn decode_dict(&mut self, depth: usize) -> (r: Result<BencodeValue, RcoError>)
        requires
            depth <= 16,
            old(self).pos < old(self).data@.len(),
            old(self).data@[old(self).pos as int] == 100,
        ensures
            final(self).data == old(self).data,
            match parse_entries(old(self).data@, old(self).pos + 1, depth as int, None) {
                Ok((es, q)) => r matches Ok(v) && v@ == BencodeTerm::Dict(es) && final(self).pos == q,
                Err(e) => r == Err::<BencodeValue, RcoError>(e),
            },
        decreases 17 - depth, 0int,
    {
        let ghost s = self.data@;
        let ghost d0 = self.data;
        match self.expect_byte(100) {

            Ok(_) => {},

            Err(e) => {

                return Err(e);

            },

        }
        let ghost start = self.pos as int;
        let mut entries: Vec<(Vec<u8>, BencodeValue)> = Vec::new();
        assert(entry_terms(entries@) + Seq::<(Seq<u8>, BencodeTerm)>::empty() == Seq::<(Seq<u8>, BencodeTerm)>::empty());
        loop
            invariant
                self.data@ == s,
                self.data == d0,
                depth <= 16,
                start <= self.pos <= s.len(),
                match parse_entries(s, self.pos as int, depth as int, last_key(entries@)) {
                    Ok((rest, q)) => parse_entries(s, start, depth as int, None) == Ok::<(Seq<(Seq<u8>, BencodeTerm)>, int), RcoError>((entry_terms(entries@) + rest, q)),
                    Err(e) => parse_entries(s, start, depth as int, None) == Err::<(Seq<(Seq<u8>, BencodeTerm)>, int), RcoError>(e),
                },
            decreases s.len() - self.pos,
        {
            let b = match self.peek() {

                Ok(x) => x,

                Err(e) => {

                    return Err(e);

                },

            };
            if b == 101 {
                self.pos = self.pos + 1;
                proof {
                    lemma_dict_view(entries);
                    assert(entry_terms(entries@) + Seq::<(Seq<u8>, BencodeTerm)>::empty() == entry_terms(entries@));
                }
                return Ok(BencodeValue::Dict(entries));
            }
            proof {
                lemma_parse_bytes_advances(s, self.pos as int);
            }
            let key = match self.decode_byte_string() {

                Ok(x) => x,

                Err(e) => {

                    return Err(e);

                },

            };
            let n = entries.len();
            if n > 0 {
                match lex_compare(entries[n - 1].0.as_slice(), key.as_slice()) {
                    LexOrder::Less => {},
                    LexOrder::Equal => {
                        return Err(RcoError::DuplicateKey);
                    },
                    LexOrder::Greater => {
                        proof {
                            lemma_lex_trichotomy(entries@[n - 1].0@, key@);
                        }
                        return Err(RcoError::KeyOrderViolation);
                    },
                }
            }
            let ghost p1 = self.pos as int;
            proof {
                lemma_parse_advances(s, p1, depth + 1);
            }
            let value = match self.decode_recursive(depth + 1) {

                Ok(x) => x,

                Err(e) => {

                    return Err(e);

                },

            };
            let ghost t = value@;
            let ghost kv = key@;
            let ghost old_entries = entries@;
            entries.push((key, value));
            proof {
                assert(entry_terms(entries@) == entry_terms(old_entries) + seq![(kv, t)]);
                match parse_entries(s, self.pos as int, depth as int, Some(kv)) {
                    Ok((rest, q)) => {
                        assert(entry_terms(entries@) + rest == entry_terms(old_entries) + (seq![(kv, t)] + rest));
                    },
                    Err(e) => {},
                }
            }
        }
    }

    // ── Cursor primitives ──────────────────────────────────────────

    /// The byte at the cursor, without moving it.
    fn peek(&self) -> (r: Result<u8, RcoError>)
        ensures
            self.data@.len() <= usize::MAX,
            r == if self.pos < self.data@.len() {
                Ok::<u8, RcoError>(self.data@[self.pos as int])
            } else {
                Err::<u8, RcoError>(end_of_input(self.pos as int))
            },
    {
        if self.pos < self.data.len() {
            Ok(self.data[self.pos])
        } else {
            Err(RcoError::InvalidGrammar { offset: self.pos, detail: "unexpected end of input" })
        }
    }

    /// Reads the byte at the cursor and moves past it.
    fn next_byte(&mut self) -> (r: Result<u8, RcoError>)
        ensures
            final(self).data == old(self).data,
            old(self).pos < old(self).data@.len() ==> r == Ok::<u8, RcoError>(old(self).data@[old(self).pos as int])
                && final(self).pos == old(self).pos + 1,
            old(self).pos >= old(self).data@.len() ==> r == Err::<u8, RcoError>(end_of_input(old(self).pos as int)),
    {
        let b = match self.peek() {

            Ok(x) => x,

            Err(e) => {

                return Err(e);

            },

        };
        self.pos = self.pos + 1;
        Ok(b)
    }

    /// Reads the byte at the cursor and requires it to be `expected`.
    fn expect_byte(&mut self, expected: u8) -> (r: Result<(), RcoError>)
        ensures
            final(self).data == old(self).data,
            old(self).pos < old(self).data@.len() && old(self).data@[old(self).pos as int] == expected
                ==> r is Ok && final(self).pos == old(self).pos + 1,
            old(self).pos < old(self).data@.len() && old(self).data@[old(self).pos as int] != expected
                ==> r == Err::<(), RcoError>(RcoError::InvalidGrammar { offset: old(self).pos, detail: "unexpected byte" }),
            old(self).pos >= old(self).data@.len() ==> r == Err::<(), RcoError>(end_of_input(old(self).pos as int)),
    {
        let b = match self.next_byte() {

            Ok(x) => x,

            Err(e) => {

                return Err(e);

            },

        };
        if b != expected {
            Err(RcoError::InvalidGrammar { offset: self.pos - 1, detail: "unexpected byte" })
        } else {
            Ok(())
        }
    }

    /// Reads an ASCII decimal string length.
    #[verifier::loop_isolation(false)]
    fn read_ascii_usize(&mut self) -> (r: Result<usize, RcoError>)
        ensures
            final(self).data == old(self).data,
            match parse_length(old(self).data@, old(self).pos as int) {
                Ok((n, q)) => r == Ok::<usize, RcoError>(n as usize) && final(self).pos == q,
                Err(e) => r == Err::<usize, RcoError>(e),
            },
    {
        proof {
            use_type_invariant(&*self);
        }
        let ghost s = self.data@;
        let ghost d0 = self.data;
        let start = self.pos;
        let mut value: usize = 0;
        let mut has_digits = false;
        proof {
            lemma_digit_end(s, start as int);
        }
        let ghost de = digit_end(s, start as int);
        if self.data.len() - start > 1 && self.data[start] == 48 && 48 <= self.data[start + 1]
            && self.data[start + 1] <= 57 {
            proof {
                lemma_digit_end(s, start + 1);
                assert(de == digit_end(s, start + 1));
            }
            return Err(RcoError::InvalidGrammar { offset: start, detail: "leading zero in string length" });
        }
        proof {
            if de - start > 1 {
                assert(is_digit(s[start + 1]));
            }
        }
        while self.pos < self.data.len() && 48 <= self.data[self.pos] && self.data[self.pos] <= 57
            invariant
                self.data@ == s,
                self.data == d0,
                start <= self.pos <= de,
                de == digit_end(s, start as int),
                start <= de <= s.len(),
                de < s.len() ==> !is_digit(s[de]),
                forall|k: int| start <= k < de ==> is_digit(#[trigger] s[k]),
                value == digits_value(s, start as int, self.pos as int),
                has_digits == (self.pos > start),
            decreases s.len() - self.pos,
        {
            let d = (self.data[self.pos] - 48) as usize;
            proof {
                lemma_digits_value_mono(s, start as int, self.pos + 1, de);
            }
            match value.checked_mul(10) {
                None => {
                    return Err(RcoError::InvalidGrammar { offset: start, detail: "string length overflow" });
                },
                Some(v10) => match v10.checked_add(d) {
                    None => {
                        return Err(RcoError::InvalidGrammar { offset: start, detail: "string length overflow" });
                    },
                    Some(v) => {
                        value = v;
                    },
                },
            }
            self.pos = self.pos + 1;
            has_digits = true;
        }
        if !has_digits {
            return Err(RcoError::InvalidGrammar { offset: start, detail: "expected digit for string length" });
        }
        Ok(value)
    }
}

/// The terms of a sequence of values.
pub open spec fn terms(items: Seq<BencodeValue>) -> Seq<BencodeTerm> {
    items.map_values(|v: BencodeValue| v@)
}

/// The terms of a sequence of dictionary entries.
pub open spec fn entry_terms(es: Seq<(Vec<u8>, BencodeValue)>) -> Seq<(Seq<u8>, BencodeTerm)> {
    es.map_values(|e: (Vec<u8>, BencodeValue)| (e.0@, e.1@))
}

/// The key of the last entry, if any.
pub open spec fn last_key(es: Seq<(Vec<u8>, BencodeValue)>) -> Option<Seq<u8>> {
    if es.len() == 0 {
        None
    } else {
        Some(es.last().0@)
    }
}

pub proof fn lemma_list_view(items: Vec<BencodeValue>)
    ensures
        BencodeValue::List(items)@ == BencodeTerm::List(terms(items@)),
{
    assert(BencodeValue::List(items)@->List_0 =~= terms(items@));
}

pub proof fn lemma_dict_view(es: Vec<(Vec<u8>, BencodeValue)>)
    ensures
        BencodeValue::Dict(es)@ == BencodeTerm::Dict(entry_terms(es@)),
{
    assert(BencodeValue::Dict(es)@->Dict_0 =~= entry_terms(es@));
}

/// Convenience function: decodes a whole buffer into one value and rejects
/// any data after it.
pub fn decode(data: &[u8]) -> (r: Result<BencodeValue, RcoError>)
    ensures
        match decode_spec(data@) {
            Ok(t) => r matches Ok(v) && v@ == t,
            Err(e) => r == Err::<BencodeValue, RcoError>(e),
        },
{
    let mut decoder = BencodeDecoder::new(data);
    let value = match decoder.decode() {

        Ok(x) => x,

        Err(e) => {

            return Err(e);

        },

    };
    if decoder.remaining() > 0 {
        return Err(RcoError::InvalidGrammar { offset: decoder.offset(), detail: "trailing data after value" });
    }
    Ok(value)
}

} // verus!
