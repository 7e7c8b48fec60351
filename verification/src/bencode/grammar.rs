//! The Bencode value type and its constructors.

use vstd::prelude::*;
use vstd::string::StringSliceAdditionalSpecFns;
use crate::bencode::model::{
    BencodeTerm, decimal, int_text, encode, encode_bytes, encode_items, encode_entries, keys_of,
    lex_lt, strictly_sorted,
};
use crate::bencode::lemmas::{
    lemma_encode_items_append, lemma_encode_entries_append, lemma_lex_trichotomy,
    lemma_lex_transitive, lemma_encode_items_single, lemma_encode_entries_single, lemma_i128_digits,
};
use crate::bencode::sort::{lex_compare, LexOrder};
use crate::bencode::decoder::{terms, entry_terms, lemma_list_view, lemma_dict_view};

verus! {

/// A single Bencode value, the node type of the grammar.
#[derive(Debug, PartialEq, Eq)]
pub enum BencodeValue {
    /// A byte string: `<len>:<bytes>`.
    Bytes(Vec<u8>),
    /// A signed integer: `i<number>e`.
    Integer(i128),
    /// An ordered list of elements: `l<element>*e`.
    List(Vec<BencodeValue>),
    /// A dictionary whose keys are kept in strictly ascending order.
    Dict(Vec<(Vec<u8>, BencodeValue)>),
}

/// The abstract term of a value.
pub open spec fn term_of(v: BencodeValue) -> BencodeTerm
    decreases v,
{
    match v {
        BencodeValue::Bytes(b) => BencodeTerm::Bytes(b@),
        BencodeValue::Integer(n) => BencodeTerm::Integer(n),
        BencodeValue::List(items) => BencodeTerm::List(
            Seq::new(
                items@.len(),
                |i: int| if 0 <= i < items@.len() { term_of(items@[i]) } else { BencodeTerm::Integer(0) },
            ),
        ),
        BencodeValue::Dict(es) => BencodeTerm::Dict(
            Seq::new(
                es@.len(),
                |i: int| if 0 <= i < es@.len() { (es@[i].0@, term_of(es@[i].1)) } else { (Seq::empty(), BencodeTerm::Integer(0)) },
            ),
        ),
    }
}

impl View for BencodeValue {
    type V = BencodeTerm;

    open spec fn view(&self) -> BencodeTerm {
        term_of(*self)
    }
}

fn copy_bytes(b: &Vec<u8>) -> (r: Vec<u8>)
    ensures
        r@ == b@,
{
    let mut out: Vec<u8> = Vec::new();
    out.extend_from_slice(b.as_slice());
    out
}

/// A deep copy of a value.
pub fn deep_copy(v: &BencodeValue) -> (r: BencodeValue)
    ensures
        r@ == v@,
    decreases v,
{
    match v {
        BencodeValue::Bytes(b) => BencodeValue::Bytes(copy_bytes(b)),
        BencodeValue::Integer(n) => BencodeValue::Integer(*n),
        BencodeValue::List(items) => {
            let mut out: Vec<BencodeValue> = Vec::new();
            let mut i: usize = 0;
            assert(*v == BencodeValue::List(*items));
            while i < items.len()
                invariant
                    *v == BencodeValue::List(*items),
                    0 <= i <= items@.len(),
                    out@.len() == i,
                    forall|k: int| 0 <= k < i ==> (#[trigger] out@[k])@ == items@[k]@,
                decreases items.len() - i,
            {
                proof {
                    assert(decreases_to!(*v => v->List_0));
                    assert(decreases_to!(v->List_0 => v->List_0@));
                    assert(decreases_to!(v->List_0@ => v->List_0@[i as int]));
                }
                out.push(deep_copy(&items[i]));
                i = i + 1;
            }
            let r = BencodeValue::List(out);
            proof {
                lemma_list_view(out);
                lemma_list_view(*items);
                assert(terms(out@) =~= terms(items@));
            }
            r
        }
        BencodeValue::Dict(es) => {
            let mut out: Vec<(Vec<u8>, BencodeValue)> = Vec::new();
            let mut i: usize = 0;
            assert(*v == BencodeValue::Dict(*es));
            while i < es.len()
                invariant
                    *v == BencodeValue::Dict(*es),
                    0 <= i <= es@.len(),
                    out@.len() == i,
                    forall|k: int| 0 <= k < i ==> (#[trigger] out@[k]).0@ == es@[k].0@ && out@[k].1@ == es@[k].1@,
                decreases es.len() - i,
            {
                proof {
                    assert(decreases_to!(*v => v->Dict_0));
                    assert(decreases_to!(v->Dict_0 => v->Dict_0@));
                    assert(decreases_to!(v->Dict_0@ => v->Dict_0@[i as int]));
                    assert(decreases_to!(v->Dict_0@[i as int] => v->Dict_0@[i as int].1));
                }
                let key = copy_bytes(&es[i].0);
                let val = deep_copy(&es[i].1);
                out.push((key, val));
                i = i + 1;
            }
            let r = BencodeValue::Dict(out);
            proof {
                lemma_dict_view(out);
                lemma_dict_view(*es);
                assert(entry_terms(out@) =~= entry_terms(es@));
            }
            r
        }
    }
}

impl Clone for BencodeValue {
    fn clone(&self) -> (r: Self)
        ensures
            r@ == self@,
    {
        deep_copy(self)
    }
}

/// Strictly sorted keys are pairwise ascending, not only adjacent ones.
pub proof fn lemma_sorted_pairwise(keys: Seq<Seq<u8>>, i: int, j: int)
    requires
        strictly_sorted(keys),
        0 <= i < j < keys.len(),
    ensures
        lex_lt(keys[i], keys[j]),
    decreases j - i,
{
    if j > i + 1 {
        lemma_sorted_pairwise(keys, i, j - 1);
        let k = j - 1;
        assert(lex_lt(keys[k], keys[k + 1]));
        lemma_lex_transitive(keys[i], keys[j - 1], keys[j]);
    } else {
        assert(lex_lt(keys[i], keys[i + 1]));
    }
}

/// Length of the decimal text of `n`.
pub proof fn lemma_decimal_len(n: nat)
    ensures
        n >= 10 ==> decimal(n).len() == decimal(n / 10).len() + 1,
        n < 10 ==> decimal(n).len() == 1,
{
}

impl BencodeValue {
    /// A byte string holding the bytes of `s`.
    pub fn string(s: &str) -> (v: Self)
        ensures
            v@ == BencodeTerm::Bytes(s.spec_bytes()),
    {
        BencodeValue::Bytes(vstd::slice::slice_to_vec(s.as_bytes()))
    }

    /// A byte string holding `b`.
    pub fn bytes(b: &[u8]) -> (v: Self)
        ensures
            v@ == BencodeTerm::Bytes(b@),
    {
        BencodeValue::Bytes(vstd::slice::slice_to_vec(b))
    }

    /// An integer.
    pub fn integer(n: i128) -> (v: Self)
        ensures
            v@ == BencodeTerm::Integer(n),
    {
        BencodeValue::Integer(n)
    }

    /// An empty list.
    pub fn list() -> (v: Self)
        ensures
            v@ == BencodeTerm::List(Seq::empty()),
    {
        let v = BencodeValue::List(Vec::new());
        assert(v@->List_0 =~= Seq::<BencodeTerm>::empty());
        v
    }

    /// An empty dictionary.
    pub fn dict() -> (v: Self)
        ensures
            v@ == BencodeTerm::Dict(Seq::empty()),
    {
        let v = BencodeValue::Dict(Vec::new());
        assert(v@->Dict_0 =~= Seq::<(Seq<u8>, BencodeTerm)>::empty());
        v
    }

    /// Inserts an entry into a dictionary at the place that keeps its keys
    /// strictly ascending. A key already present, or a value that is not a
    /// dictionary, is refused and nothing changes.
    pub fn insert(&mut self, key: &[u8], value: BencodeValue) -> (r: Result<(), ()>)
        requires
            old(self)@ matches BencodeTerm::Dict(es) ==> strictly_sorted(keys_of(es)),
        ensures
            match old(self)@ {
                BencodeTerm::Dict(es) => if keys_of(es).contains(key@) {
                    r is Err && final(self)@ == old(self)@
                } else {
                    &&& r is Ok
                    &&& exists|pos: int| {
                        &&& 0 <= pos <= es.len()
                        &&& (forall|j: int| 0 <= j < pos ==> lex_lt(#[trigger] es[j].0, key@))
                        &&& (forall|j: int| pos <= j < es.len() ==> lex_lt(key@, #[trigger] es[j].0))
                        &&& final(self)@ == BencodeTerm::Dict(es.insert(pos, (key@, value@)))
                    }
                    &&& final(self)@ matches BencodeTerm::Dict(es2) && strictly_sorted(keys_of(es2))
                },
                _ => r is Err && final(self)@ == old(self)@,
            },
    {
        match self {
            BencodeValue::Dict(entries) => {
                proof {
                    lemma_dict_view(*entries);
                }
                let ghost es = entry_terms(entries@);
                let ghost ks = keys_of(es);
                let mut lo: usize = 0;
                let mut hi: usize = entries.len();
                while lo < hi
                    invariant
                        0 <= lo <= hi <= entries@.len(),
                        es == entry_terms(entries@),
                        ks == keys_of(es),
                        strictly_sorted(ks),
                        forall|j: int| 0 <= j < lo ==> lex_lt(#[trigger] ks[j], key@),
                        forall|j: int| hi <= j < ks.len() ==> !lex_lt(#[trigger] ks[j], key@),
                    decreases hi - lo,
                {
                    let mid = lo + (hi - lo) / 2;
                    assert(ks[mid as int] == entries@[mid as int].0@);
                    match lex_compare(entries[mid].0.as_slice(), key) {
                        LexOrder::Less => {
                            assert forall|j: int| 0 <= j < mid + 1 implies lex_lt(#[trigger] ks[j], key@) by {
                                if j < mid {
                                    lemma_sorted_pairwise(ks, j, mid as int);
                                    lemma_lex_transitive(ks[j], ks[mid as int], key@);
                                }
                            }
                            lo = mid + 1;
                        },
                        _ => {
                            assert forall|j: int| mid <= j < ks.len() implies !lex_lt(#[trigger] ks[j], key@) by {
                                lemma_lex_trichotomy(ks[mid as int], key@);
                                if j > mid {
                                    lemma_sorted_pairwise(ks, mid as int, j);
                                    lemma_lex_trichotomy(ks[j], key@);
                                    if lex_lt(ks[j], key@) {
                                        lemma_lex_transitive(ks[mid as int], ks[j], key@);
                                    }
                                }
                            }
                            hi = mid;
                        },
                    }
                }
                let pos = lo;
                if pos < entries.len() {
                    assert(ks[pos as int] == entries@[pos as int].0@);
                    match lex_compare(entries[pos].0.as_slice(), key) {
                        LexOrder::Equal => {
                            assert(ks.contains(key@));
                            return Err(());
                        },
                        _ => {},
                    }
                }
                assert forall|j: int| pos <= j < ks.len() implies lex_lt(key@, #[trigger] ks[j]) by {
                    lemma_lex_trichotomy(ks[j], key@);
                    if j > pos {
                        lemma_sorted_pairwise(ks, pos as int, j);
                        lemma_lex_trichotomy(ks[pos as int], key@);
                    }
                }
                assert(!ks.contains(key@)) by {
                    if ks.contains(key@) {
                        let j = choose|j: int| 0 <= j < ks.len() && ks[j] == key@;
                        lemma_lex_trichotomy(key@, key@);
                        if j < pos {
                            assert(lex_lt(ks[j], key@));
                        } else {
                            assert(lex_lt(key@, ks[j]));
                        }
                    }
                }
                let ghost vt = value@;
                entries.insert(pos, (vstd::slice::slice_to_vec(key), value));
                proof {
                    lemma_dict_view(*entries);
                    assert(entry_terms(entries@) =~= es.insert(pos as int, (key@, vt)));
                    let es2 = es.insert(pos as int, (key@, vt));
                    let ks2 = keys_of(es2);
                    assert(ks2 =~= ks.insert(pos as int, key@));
                    assert forall|i: int| 0 <= i < ks2.len() - 1 implies #[trigger] lex_lt(ks2[i], ks2[i + 1]) by {
                        if i + 1 < pos {
                            assert(lex_lt(ks[i], ks[i + 1]));
                            assert(ks2[i] == ks[i] && ks2[i + 1] == ks[i + 1]);
                        } else if i + 1 == pos {
                            assert(ks2[i] == ks[i]);
                        } else if i == pos {
                            assert(ks2[i + 1] == ks[i]);
                        } else {
                            let k = i - 1;
                            assert(lex_lt(ks[k], ks[k + 1]));
                            assert(ks2[i] == ks[k] && ks2[i + 1] == ks[k + 1]);
                        }
                    }
                    assert forall|j: int| 0 <= j < pos implies lex_lt(#[trigger] es[j].0, key@) by {
                        assert(ks[j] == es[j].0);
                    }
                    assert forall|j: int| pos <= j < es.len() implies lex_lt(key@, #[trigger] es[j].0) by {
                        assert(ks[j] == es[j].0);
                    }
                }
                Ok(())
            },
            _ => Err(()),
        }
    }

    /// Appends a value to a list; any other value is refused unchanged.
    pub fn push(&mut self, value: BencodeValue) -> (r: Result<(), ()>)
        ensures
            match old(self)@ {
                BencodeTerm::List(items) => r is Ok && final(self)@ == BencodeTerm::List(items.push(value@)),
                _ => r is Err && final(self)@ == old(self)@,
            },
    {
        match self {
            BencodeValue::List(items) => {
                proof {
                    lemma_list_view(*items);
                }
                let ghost ts = terms(items@);
                let ghost vt = value@;
                items.push(value);
                proof {
                    lemma_list_view(*items);
                    assert(terms(items@) =~= ts.push(vt));
                }
                Ok(())
            },
            _ => Err(()),
        }
    }

    /// Size in bytes of the value's encoding, computed without encoding it.
    #[verifier::loop_isolation(false)]
    pub fn encoded_size(&self) -> (n: usize)
        requires
            encode(self@).len() <= usize::MAX,
        ensures
            n == encode(self@).len(),
        decreases self,
    {
        match self {
            BencodeValue::Bytes(b) => {
                let len_str = int_to_string_len(b.len() as i128);
                len_str + 1 + b.len()
            },
            BencodeValue::Integer(n) => 2 + int_to_string_len(*n),
            BencodeValue::List(items) => {
                proof {
                    lemma_list_view(*items);
                }
                let ghost ts = terms(items@);
                let mut total: usize = 0;
                let mut i: usize = 0;
                assert(ts.subrange(0, 0) =~= Seq::<BencodeTerm>::empty());
                while i < items.len()
                    invariant
                        0 <= i <= items@.len(),
                        ts == terms(items@),
                        encode(BencodeTerm::List(ts)).len() <= usize::MAX,
                        total == encode_items(ts.subrange(0, i as int)).len(),
                    decreases items.len() - i,
                {
                    proof {
                        assert(ts.subrange(0, i + 1) =~= ts.subrange(0, i as int) + seq![ts[i as int]]);
                        lemma_encode_items_append(ts.subrange(0, i as int), seq![ts[i as int]]);
                        lemma_encode_items_single(ts[i as int]);
                        assert(ts =~= ts.subrange(0, i + 1) + ts.skip(i + 1));
                        lemma_encode_items_append(ts.subrange(0, i + 1), ts.skip(i + 1));
                    }
                    proof {
                        assert(decreases_to!(*self => self->List_0));
                        assert(self->List_0 == *items);
                        assert(decreases_to!(*items => items[i as int]));
                    }
                    total = total + items[i].encoded_size();
                    i = i + 1;
                }
                assert(ts.subrange(0, i as int) =~= ts);
                2 + total
            },
            BencodeValue::Dict(entries) => {
                proof {
                    lemma_dict_view(*entries);
                }
                let ghost es = entry_terms(entries@);
                let mut total: usize = 0;
                let mut i: usize = 0;
                assert(es.subrange(0, 0) =~= Seq::<(Seq<u8>, BencodeTerm)>::empty());
                while i < entries.len()
                    invariant
                        0 <= i <= entries@.len(),
                        es == entry_terms(entries@),
                        encode(BencodeTerm::Dict(es)).len() <= usize::MAX,
                        total == encode_entries(es.subrange(0, i as int)).len(),
                    decreases entries.len() - i,
                {
                    let ghost e0 = es[i as int];
                    proof {
                        assert(es.subrange(0, i + 1) =~= es.subrange(0, i as int) + seq![e0]);
                        lemma_encode_entries_append(es.subrange(0, i as int), seq![e0]);
                        lemma_encode_entries_single(e0);
                        assert(es =~= es.subrange(0, i + 1) + es.skip(i + 1));
                        lemma_encode_entries_append(es.subrange(0, i + 1), es.skip(i + 1));
                    }
                    proof {
                        assert(decreases_to!(*self => self->Dict_0));
                        assert(self->Dict_0 == *entries);
                        assert(decreases_to!(*entries => entries[i as int]));
                        assert(decreases_to!(entries[i as int] => entries[i as int].1));
                    }
                    let key_len = entries[i].0.len();
                    let key_size = int_to_string_len(key_len as i128) + 1 + key_len;
                    total = total + key_size + entries[i].1.encoded_size();
                    i = i + 1;
                }
                assert(es.subrange(0, i as int) =~= es);
                2 + total
            },
        }
    }
}

/// Number of ASCII characters the encoder writes for an integer.
pub fn int_to_string_len(n: i128) -> (len: usize)
    ensures
        len == int_text(n).len(),
{
    if n == 0 {
        return 1;
    }
    let mut len: usize = 0;
    let mut val: u128 = if n < 0 {
        len = 1;
        ((-(n + 1)) as u128) + 1
    } else {
        n as u128
    };
    let ghost m = val as nat;
    assert(int_text(n).len() == len + decimal(m).len());
    proof {
        lemma_i128_digits(m);
    }
    while val > 0
        invariant
            0 <= val,
            len + if val > 0 { decimal(val as nat).len() as int } else { 0 } <= 40,
            int_text(n).len() == len + if val > 0 { decimal(val as nat).len() as int } else { 0 },
        decreases val,
    {
        proof {
            lemma_decimal_len(val as nat);
        }
        len = len + 1;
        val = val / 10;
    }
    len
}

} // verus!
