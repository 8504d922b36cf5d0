//! The tagged value model and its canonical byte encoding.
use crate::float::CmpFloat;
use crate::hash::digest_spec;
use vstd::prelude::*;
use vstd::utf8::encode_utf8;
use crate::text::{chars_of, lemma_lex_asymmetric, lemma_lex_irreflexive, lemma_lex_total, lemma_lex_transitive, lex_less, lex_lt};

verus! {

pub const TAG_BOOL: u8 = 0x01;
pub const TAG_INTEGER: u8 = 0x02;
pub const TAG_FLOAT: u8 = 0x03;
pub const TAG_STRING: u8 = 0x04;
pub const TAG_ARRAY: u8 = 0x05;
pub const TAG_DICT: u8 = 0x06;

/// A parameter value.
#[derive(Debug)]
pub enum Value {
    Bool(bool),
    Integer(i64),
    Float(CmpFloat),
    Array(Vec<Value>),
    String(String),
    /// Entries of a mapping; `dict` lays them out in increasing key order.
    Dict(Vec<(String, Value)>),
}

/// The type of a function parameter.
#[derive(Debug)]
pub enum ValueType {
    Integer,
    Float,
    String,
    Bool,
    Array(Box<ValueType>),
    Dict(Box<ValueType>),
}

/// Byte `k` (counting from the least significant) of `x`.
pub open spec fn byte_of(x: u64, k: u64) -> u8 {
    ((x >> (8 * k)) & 0xff) as u8
}

/// The eight bytes of `x`, least significant first.
pub open spec fn le_u64(x: u64) -> Seq<u8> {
    Seq::new(8, |k: int| byte_of(x, k as u64))
}

/// A byte string prefixed with its length.
pub open spec fn sized_bytes(b: Seq<u8>) -> Seq<u8> {
    le_u64(b.len() as u64) + b
}

/// A string as its length-prefixed UTF-8 bytes.
pub open spec fn str_bytes(s: Seq<char>) -> Seq<u8> {
    sized_bytes(encode_utf8(s))
}

/// The canonical encoding of a value.
pub open spec fn value_bytes(v: Value) -> Seq<u8>
    decreases v,
{
    match v {
        Value::Bool(b) => seq![TAG_BOOL, if b { 1u8 } else { 0u8 }],
        Value::Integer(i) => seq![TAG_INTEGER] + le_u64(#[verifier::truncate] (i as u64)),
        Value::Float(f) => seq![TAG_FLOAT] + le_u64(f.canonical_bits()),
        Value::String(s) => seq![TAG_STRING] + str_bytes(s@),
        Value::Array(items) => seq![TAG_ARRAY] + le_u64(items@.len() as u64) + values_bytes(
            items@,
        ),
        Value::Dict(entries) => seq![TAG_DICT] + le_u64(entries@.len() as u64) + entries_bytes(
            entries@,
        ),
    }
}

/// The encodings of a sequence of values, one after another.
pub open spec fn values_bytes(s: Seq<Value>) -> Seq<u8>
    decreases s,
{
    if s.len() == 0 {
        Seq::empty()
    } else {
        value_bytes(s[0]) + values_bytes(s.drop_first())
    }
}

/// The encodings of mapping entries, each key followed by its value.
pub open spec fn entries_bytes(s: Seq<(String, Value)>) -> Seq<u8>
    decreases s,
{
    if s.len() == 0 {
        Seq::empty()
    } else {
        str_bytes(s[0].0@) + value_bytes(s[0].1) + entries_bytes(s.drop_first())
    }
}

} // verus!

verus! {

/// Appends the eight bytes of `x`, least significant first.
pub fn push_u64(out: &mut Vec<u8>, x: u64)
    ensures
        final(out)@ == old(out)@ + le_u64(x),
{
    let ghost start = out@;
    let mut k: u64 = 0;
    while k < 8
        invariant
            0 <= k <= 8,
            out@ == start + le_u64(x).take(k as int),
        decreases 8 - k,
    {
        out.push(((x >> (8 * k)) & 0xff) as u8);
        proof {
            assert(le_u64(x).take(k + 1) =~= le_u64(x).take(k as int).push(byte_of(x, k)));
        }
        k = k + 1;
    }
    assert(le_u64(x).take(8) =~= le_u64(x));
}

/// Appends a byte string prefixed with its length.
pub fn push_sized(out: &mut Vec<u8>, b: &[u8])
    ensures
        final(out)@ == old(out)@ + sized_bytes(b@),
{
    let ghost start = out@;
    push_u64(out, b.len() as u64);
    let ghost mid = out@;
    let mut i: usize = 0;
    while i < b.len()
        invariant
            0 <= i <= b@.len(),
            mid == start + le_u64(b@.len() as u64),
            out@ == mid + b@.take(i as int),
        decreases b@.len() - i,
    {
        out.push(b[i]);
        proof {
            assert(b@.take(i + 1) =~= b@.take(i as int).push(b@[i as int]));
        }
        i = i + 1;
    }
    assert(b@.take(b@.len() as int) =~= b@);
    assert(out@ =~= start + sized_bytes(b@));
}

/// Appends a string as its length-prefixed UTF-8 bytes.
pub fn push_str(out: &mut Vec<u8>, s: &String)
    ensures
        final(out)@ == old(out)@ + str_bytes(s@),
{
    push_sized(out, s.as_str().as_bytes());
}

/// Appends the canonical encoding of `v`.
pub fn encode_value(v: &Value, out: &mut Vec<u8>)
    ensures
        final(out)@ == old(out)@ + value_bytes(*v),
    decreases v,
{
    let ghost start = out@;
    match v {
        Value::Bool(b) => {
            out.push(TAG_BOOL);
            out.push(if *b { 1u8 } else { 0u8 });
            assert(out@ =~= start + value_bytes(*v));
        },
        Value::Integer(i) => {
            out.push(TAG_INTEGER);
            push_u64(out, #[verifier::truncate] (*i as u64));
            assert(out@ =~= start + value_bytes(*v));
        },
        Value::Float(f) => {
            out.push(TAG_FLOAT);
            push_u64(out, f.canonical_bits_exec());
            assert(out@ =~= start + value_bytes(*v));
        },
        Value::String(s) => {
            out.push(TAG_STRING);
            push_str(out, s);
            assert(out@ =~= start + value_bytes(*v));
        },
        Value::Array(items) => {
            out.push(TAG_ARRAY);
            push_u64(out, items.len() as u64);
            let ghost mid = out@;
            let mut i: usize = 0;
            assert(items@.skip(0) =~= items@);
            while i < items.len()
                invariant
                    0 <= i <= items@.len(),
                    *v == Value::Array(*items),
                    mid == start + seq![TAG_ARRAY] + le_u64(items@.len() as u64),
                    out@ + values_bytes(items@.skip(i as int)) == mid + values_bytes(items@),
                decreases items@.len() - i,
            {
                proof {
                    assert(items@.skip(i as int).drop_first() =~= items@.skip(i + 1));
                    assert(decreases_to!(*v => v->Array_0));
                    assert(decreases_to!(v->Array_0 => v->Array_0@));
                    assert(decreases_to!(v->Array_0@ => v->Array_0@[i as int]));
                    assert(decreases_to!(*v => items@[i as int]));
                }
                let ghost before = out@;
                encode_value(&items[i], out);
                proof {
                    assert(out@ + values_bytes(items@.skip(i + 1)) =~= before + values_bytes(items@.skip(i as int)));
                }
                i = i + 1;
            }
            assert(items@.skip(items@.len() as int) =~= Seq::<Value>::empty());
            assert(out@ =~= start + value_bytes(*v));
        },
        Value::Dict(entries) => {
            out.push(TAG_DICT);
            push_u64(out, entries.len() as u64);
            let ghost mid = out@;
            let mut i: usize = 0;
            assert(entries@.skip(0) =~= entries@);
            while i < entries.len()
                invariant
                    0 <= i <= entries@.len(),
                    *v == Value::Dict(*entries),
                    mid == start + seq![TAG_DICT] + le_u64(entries@.len() as u64),
                    out@ + entries_bytes(entries@.skip(i as int)) == mid + entries_bytes(entries@),
                decreases entries@.len() - i,
            {
                proof {
                    assert(entries@.skip(i as int).drop_first() =~= entries@.skip(i + 1));
                    assert(decreases_to!(*v => v->Dict_0));
                    assert(decreases_to!(v->Dict_0 => v->Dict_0@));
                    assert(decreases_to!(v->Dict_0@ => v->Dict_0@[i as int]));
                    assert(decreases_to!(v->Dict_0@[i as int] => v->Dict_0@[i as int].1));
                    assert(decreases_to!(*v => entries@[i as int].1));
                }
                let ghost before = out@;
                push_str(out, &entries[i].0);
                encode_value(&entries[i].1, out);
                proof {
                    assert(out@ + entries_bytes(entries@.skip(i + 1)) =~= before + entries_bytes(entries@.skip(i as int)));
                }
                i = i + 1;
            }
            assert(entries@.skip(entries@.len() as int) =~= Seq::<(String, Value)>::empty());
            assert(out@ =~= start + value_bytes(*v));
        },
    }
}

} // verus!

verus! {

/// Keys strictly increase along the entries.
pub open spec fn keys_sorted(s: Seq<(String, Value)>) -> bool {
    forall|a: int, b: int| 0 <= a < b < s.len() ==> lex_lt(s[a].0@, s[b].0@)
}

/// Two lists of entries hold the same entries.
pub open spec fn same_entries(s: Seq<(String, Value)>, t: Seq<(String, Value)>) -> bool {
    forall|x: (String, Value)| s.contains(x) <==> t.contains(x)
}

/// No two entries share a key.
pub open spec fn keys_distinct(s: Seq<(String, Value)>) -> bool {
    forall|a: int, b: int| 0 <= a < s.len() && 0 <= b < s.len() && a != b ==> s[a].0@ != s[b].0@
}

/// Two key-sorted lists with the same entries are the same list.
pub proof fn lemma_sorted_unique(s: Seq<(String, Value)>, t: Seq<(String, Value)>)
    requires
        keys_sorted(s),
        keys_sorted(t),
        same_entries(s, t),
    ensures
        s == t,
    decreases s.len() + t.len(),
{
    if s.len() == 0 || t.len() == 0 {
        if s.len() > 0 {
            assert(s.contains(s[0]));
        }
        if t.len() > 0 {
            assert(t.contains(t[0]));
        }
        assert(s =~= t);
    } else {
        assert(s.contains(s[0]));
        assert(t.contains(t[0]));
        let i = choose|i: int| 0 <= i < t.len() && t[i] == s[0];
        let j = choose|j: int| 0 <= j < s.len() && s[j] == t[0];
        assert(i == 0) by {
            if i > 0 {
                if j > 0 {
                    assert(lex_lt(t[0].0@, t[i].0@));
                    assert(lex_lt(s[0].0@, s[j].0@));
                    lemma_lex_asymmetric(s[0].0@, t[0].0@);
                } else {
                    assert(lex_lt(t[0].0@, t[i].0@));
                    lemma_lex_irreflexive(t[0].0@);
                }
            }
        }
        let s1 = s.drop_first();
        let t1 = t.drop_first();
        assert forall|x: (String, Value)| s1.contains(x) <==> t1.contains(x) by {
            if s1.contains(x) {
                let a = choose|a: int| 0 <= a < s1.len() && s1[a] == x;
                assert(s.contains(x));
                let b = choose|b: int| 0 <= b < t.len() && t[b] == x;
                if b == 0 {
                    assert(lex_lt(s[0].0@, s[a + 1].0@));
                    lemma_lex_irreflexive(s[0].0@);
                }
                assert(t1[b - 1] == x);
            }
            if t1.contains(x) {
                let a = choose|a: int| 0 <= a < t1.len() && t1[a] == x;
                assert(t.contains(x));
                let b = choose|b: int| 0 <= b < s.len() && s[b] == x;
                if b == 0 {
                    assert(lex_lt(t[0].0@, t[a + 1].0@));
                    lemma_lex_irreflexive(t[0].0@);
                }
                assert(s1[b - 1] == x);
            }
        }
        assert(keys_sorted(s1));
        assert(keys_sorted(t1));
        lemma_sorted_unique(s1, t1);
        assert(s =~= seq![s[0]] + s1);
        assert(t =~= seq![t[0]] + t1);
    }
}

/// A mapping built from entries in any order: the entries sorted by key, or `None`
/// where two entries share a key.
pub fn dict(entries: Vec<(String, Value)>) -> (r: Option<Value>)
    ensures
        r is Some <==> keys_distinct(entries@),
        r is Some ==> r->0 is Dict && keys_sorted(r->0->Dict_0@) && same_entries(r->0->Dict_0@, entries@),
        r is Some && (forall|k: int| 0 <= k < entries@.len() ==> value_wf((#[trigger] entries@[k]).1)) ==> value_wf(r->0),
{
    let ghost all = entries@;
    let mut out: Vec<(String, Value)> = Vec::new();
    let mut keys: Vec<Vec<char>> = Vec::new();
    let mut x: usize = 0;
    let n = entries.len();
    for e in it: entries.into_iter()
        invariant
            it.seq() == all,
            x == it.index(),
            all.len() == n,
            keys_distinct(all.take(x as int)),
            keys_sorted(out@),
            same_entries(out@, all.take(x as int)),
            keys@.len() == out@.len(),
            forall|k: int| 0 <= k < keys@.len() ==> (#[trigger] keys@[k])@ == out@[k].0@,
    {
        let ghost eg = e;
        assert(all[x as int] == e);
        let kc = chars_of(e.0.as_str());
        let mut p: usize = 0;
        while p < out.len() && lex_less(&keys[p], &kc)
            invariant
                0 <= p <= out@.len(),
                keys@.len() == out@.len(),
                forall|k: int| 0 <= k < keys@.len() ==> (#[trigger] keys@[k])@ == out@[k].0@,
                forall|q: int| 0 <= q < p ==> lex_lt(out@[q].0@, kc@),
            decreases out@.len() - p,
        {
            p = p + 1;
        }
        if p < out.len() && !lex_less(&kc, &keys[p]) {
            proof {
                lemma_lex_total(kc@, keys@[p as int]@);
                assert(same_entries(out@, all.take(x as int)));
                assert(out@.contains(out@[p as int]));
                let j = choose|j: int| 0 <= j < x && all.take(x as int)[j] == out@[p as int];
                assert(all[j].0@ == all[x as int].0@);
                assert(!keys_distinct(all));
            }
            return None;
        }
        let ghost old_out = out@;
        proof {
            assert forall|q: int| p <= q < old_out.len() implies lex_lt(kc@, #[trigger] old_out[q].0@) by {
                if q > p {
                    assert(keys_sorted(old_out));
                    lemma_lex_transitive(kc@, old_out[p as int].0@, old_out[q].0@);
                }
            }
            assert forall|q: int| 0 <= q < x implies all[q].0@ != kc@ by {
                assert(all.take(x as int)[q] == all[q]);
                assert(all.take(x as int).contains(all[q]));
                let t = choose|t: int| 0 <= t < old_out.len() && old_out[t] == all[q];
                lemma_lex_irreflexive(kc@);
            }
        }
        out.insert(p, e);
        keys.insert(p, kc);
        proof {
            let s = all.take(x + 1);
            assert(s == all.take(x as int).push(eg));
            assert(keys_distinct(s)) by {
                assert forall|a: int, b: int| 0 <= a < s.len() && 0 <= b < s.len() && a != b implies s[a].0@ != s[b].0@ by {
                    if a < x && b < x {
                        assert(s[a] == all.take(x as int)[a] && s[b] == all.take(x as int)[b]);
                    } else if a == x {
                        assert(s[b] == all[b]);
                    } else {
                        assert(s[a] == all[a]);
                    }
                }
            }
            assert(keys_sorted(out@)) by {
                assert forall|a: int, b: int| 0 <= a < b < out@.len() implies lex_lt(out@[a].0@, out@[b].0@) by {
                    if a < p && b < p {
                    } else if a < p && b == p {
                    } else if a < p {
                        assert(out@[b] == old_out[b - 1]);
                        lemma_lex_transitive(old_out[a].0@, kc@, old_out[b - 1].0@);
                    } else if a == p {
                        assert(out@[b] == old_out[b - 1]);
                    } else {
                        assert(out@[a] == old_out[a - 1] && out@[b] == old_out[b - 1]);
                    }
                }
            }
            assert forall|y: (String, Value)| out@.contains(y) <==> s.contains(y) by {
                if out@.contains(y) {
                    let k = choose|k: int| 0 <= k < out@.len() && out@[k] == y;
                    if k == p {
                        assert(s[x as int] == y);
                    } else {
                        let k2 = if k < p { k } else { k - 1 };
                        assert(old_out[k2] == y);
                        assert(old_out.contains(y));
                        let j = choose|j: int| 0 <= j < x && all.take(x as int)[j] == y;
                        assert(s[j] == y);
                    }
                }
                if s.contains(y) {
                    let k = choose|k: int| 0 <= k < s.len() && s[k] == y;
                    if k == x {
                        assert(out@[p as int] == y);
                    } else {
                        assert(all.take(x as int)[k] == y);
                        assert(all.take(x as int).contains(y));
                        let t = choose|t: int| 0 <= t < old_out.len() && old_out[t] == y;
                        if t < p {
                            assert(out@[t] == y);
                        } else {
                            assert(out@[t + 1] == y);
                        }
                    }
                }
            }
            assert forall|k: int| 0 <= k < keys@.len() implies (#[trigger] keys@[k])@ == out@[k].0@ by {
                if k < p {
                } else if k > p {
                }
            }
        }
        x = x + 1;
    }
    proof {
        assert(all.take(x as int) =~= all);
        if forall|k: int| 0 <= k < all.len() ==> value_wf((#[trigger] all[k]).1) {
            assert forall|k: int| 0 <= k < out@.len() implies value_wf((#[trigger] out@[k]).1) by {
                assert(out@.contains(out@[k]));
                let j = choose|j: int| 0 <= j < all.len() && all[j] == out@[k];
            }
        }
    }
    Some(Value::Dict(out))
}

/// The order in which a mapping's entries are given does not change it: two key
/// orders of the same entries give the same mapping, hence the same encoding and
/// the same digest.
pub proof fn lemma_dict_order_irrelevant(
    e1: Seq<(String, Value)>,
    e2: Seq<(String, Value)>,
    perm: Seq<int>,
    d1: Vec<(String, Value)>,
    d2: Vec<(String, Value)>,
)
    requires
        perm.len() == e1.len(),
        e2.len() == e1.len(),
        forall|k: int| 0 <= k < perm.len() ==> 0 <= #[trigger] perm[k] < e1.len() && e2[k] == e1[perm[k]],
        forall|a: int, b: int| 0 <= a < b < perm.len() ==> perm[a] != perm[b],
        keys_sorted(d1@) && same_entries(d1@, e1),
        keys_sorted(d2@) && same_entries(d2@, e2),
    ensures
        d1@ == d2@,
        value_bytes(Value::Dict(d1)) == value_bytes(Value::Dict(d2)),
        digest_spec(value_bytes(Value::Dict(d1))) == digest_spec(value_bytes(Value::Dict(d2))),
{
    assert forall|x: (String, Value)| e1.contains(x) <==> e2.contains(x) by {
        if e1.contains(x) {
            let i = choose|i: int| 0 <= i < e1.len() && e1[i] == x;
            lemma_hits_all(perm, e1.len(), i);
            let k = choose|k: int| 0 <= k < perm.len() && perm[k] == i;
            assert(e2[k] == x);
        }
        if e2.contains(x) {
            let k = choose|k: int| 0 <= k < e2.len() && e2[k] == x;
            assert(e1[perm[k]] == x);
        }
    }
    lemma_sorted_unique(d1@, d2@);
}

/// A distinct sequence of `n` positions below `n` holds every position below `n`.
proof fn lemma_hits_all(perm: Seq<int>, n: nat, i: int)
    requires
        perm.len() == n,
        forall|k: int| 0 <= k < perm.len() ==> 0 <= #[trigger] perm[k] < n,
        forall|a: int, b: int| 0 <= a < b < perm.len() ==> perm[a] != perm[b],
        0 <= i < n,
    ensures
        exists|k: int| 0 <= k < perm.len() && perm[k] == i,
{
    if !(exists|k: int| 0 <= k < perm.len() && perm[k] == i) {
        let s = perm.to_set();
        assert(perm.no_duplicates()) by {
            assert forall|a: int, b: int| 0 <= a < perm.len() && 0 <= b < perm.len() && a != b implies perm[a] != perm[b] by {
                if a > b {
                    assert(perm[b] != perm[a]);
                }
            }
        }
        perm.unique_seq_to_set();
        vstd::set_lib::lemma_int_range(0, n as int);
        let r = vstd::set_lib::set_int_range(0, n as int).remove(i);
        assert(s.subset_of(r)) by {
            assert forall|x: int| s.contains(x) implies r.contains(x) by {
                let k = choose|k: int| 0 <= k < perm.len() && perm[k] == x;
            }
        }
        vstd::set_lib::lemma_len_subset(s, r);
    }
}

} // verus!

verus! {

/// Deep equality of values: floats as `CmpFloat` compares them, strings by their
/// characters, arrays and mappings entry by entry.
pub open spec fn value_eq(a: Value, b: Value) -> bool
    decreases a,
{
    match a {
        Value::Bool(x) => b is Bool && b->Bool_0 == x,
        Value::Integer(x) => b is Integer && b->Integer_0 == x,
        Value::Float(x) => b is Float && x.equal_spec(b->Float_0),
        Value::String(s) => b is String && b->String_0@ == s@,
        Value::Array(xs) => b is Array && xs@.len() == b->Array_0@.len() && forall|i: int|
            0 <= i < xs@.len() ==> value_eq(#[trigger] xs@[i], b->Array_0@[i]),
        Value::Dict(xs) => b is Dict && xs@.len() == b->Dict_0@.len() && forall|i: int|
            0 <= i < xs@.len() ==> (#[trigger] xs@[i]).0@ == b->Dict_0@[i].0@ && value_eq(
                xs@[i].1,
                b->Dict_0@[i].1,
            ),
    }
}

impl Value {
    /// Whether two values are deeply equal.
    pub fn deep_eq(&self, other: &Value) -> (r: bool)
        ensures
            r == value_eq(*self, *other),
        decreases self,
    {
        match (self, other) {
            (Value::Bool(x), Value::Bool(y)) => *x == *y,
            (Value::Integer(x), Value::Integer(y)) => *x == *y,
            (Value::Float(x), Value::Float(y)) => x.eq(y),
            (Value::String(s), Value::String(t)) => *s == *t,
            (Value::Array(xs), Value::Array(ys)) => {
                if xs.len() != ys.len() {
                    return false;
                }
                let mut i: usize = 0;
                while i < xs.len()
                    invariant
                        0 <= i <= xs@.len(),
                        xs@.len() == ys@.len(),
                        *self == Value::Array(*xs),
                        *other == Value::Array(*ys),
                        forall|k: int| 0 <= k < i ==> value_eq(#[trigger] xs@[k], ys@[k]),
                    decreases xs@.len() - i,
                {
                    proof {
                        assert(decreases_to!(*self => self->Array_0));
                        assert(decreases_to!(self->Array_0 => self->Array_0@));
                        assert(decreases_to!(self->Array_0@ => self->Array_0@[i as int]));
                    }
                    if !xs[i].deep_eq(&ys[i]) {
                        return false;
                    }
                    i = i + 1;
                }
                true
            },
            (Value::Dict(xs), Value::Dict(ys)) => {
                if xs.len() != ys.len() {
                    return false;
                }
                let mut i: usize = 0;
                while i < xs.len()
                    invariant
                        0 <= i <= xs@.len(),
                        xs@.len() == ys@.len(),
                        *self == Value::Dict(*xs),
                        *other == Value::Dict(*ys),
                        forall|k: int|
                            0 <= k < i ==> (#[trigger] xs@[k]).0@ == ys@[k].0@ && value_eq(
                                xs@[k].1,
                                ys@[k].1,
                            ),
                    decreases xs@.len() - i,
                {
                    proof {
                        assert(decreases_to!(*self => self->Dict_0));
                        assert(decreases_to!(self->Dict_0 => self->Dict_0@));
                        assert(decreases_to!(self->Dict_0@ => self->Dict_0@[i as int]));
                        assert(decreases_to!(self->Dict_0@[i as int] => self->Dict_0@[i as int].1));
                    }
                    if xs[i].0 != ys[i].0 || !xs[i].1.deep_eq(&ys[i].1) {
                        return false;
                    }
                    i = i + 1;
                }
                true
            },
            _ => false,
        }
    }
}

} // verus!

verus! {

impl PartialEq for Value {
    fn eq(&self, other: &Value) -> (r: bool)
        ensures
            r == value_eq(*self, *other),
    {
        self.deep_eq(other)
    }
}

impl vstd::std_specs::cmp::PartialEqSpecImpl for Value {
    open spec fn obeys_eq_spec() -> bool {
        true
    }

    open spec fn eq_spec(&self, other: &Value) -> bool {
        value_eq(*self, *other)
    }
}

} // verus!

verus! {

/// A value in canonical form: every mapping, at every depth, has its keys in
/// strictly increasing order.
pub open spec fn value_wf(v: Value) -> bool
    decreases v,
{
    match v {
        Value::Array(xs) => forall|i: int| 0 <= i < xs@.len() ==> value_wf(#[trigger] xs@[i]),
        Value::Dict(xs) => keys_sorted(xs@) && forall|i: int|
            0 <= i < xs@.len() ==> value_wf((#[trigger] xs@[i]).1),
        _ => true,
    }
}

/// Whether the keys of `entries` strictly increase.
fn keys_increase(entries: &Vec<(String, Value)>) -> (r: bool)
    ensures
        r == keys_sorted(entries@),
{
    let mut keys: Vec<Vec<char>> = Vec::new();
    let mut k: usize = 0;
    while k < entries.len()
        invariant
            0 <= k <= entries@.len(),
            keys@.len() == k,
            forall|q: int| 0 <= q < k ==> (#[trigger] keys@[q])@ == entries@[q].0@,
        decreases entries@.len() - k,
    {
        keys.push(chars_of(entries[k].0.as_str()));
        k = k + 1;
    }
    let mut a: usize = 0;
    while a < keys.len()
        invariant
            0 <= a <= keys@.len(),
            keys@.len() == entries@.len(),
            forall|q: int| 0 <= q < keys@.len() ==> (#[trigger] keys@[q])@ == entries@[q].0@,
            forall|x: int, y: int| 0 <= x < a && x < y < entries@.len() ==> lex_lt(entries@[x].0@, entries@[y].0@),
        decreases keys@.len() - a,
    {
        let mut b: usize = a + 1;
        while b < keys.len()
            invariant
                0 <= a < b <= keys@.len(),
                keys@.len() == entries@.len(),
                forall|q: int| 0 <= q < keys@.len() ==> (#[trigger] keys@[q])@ == entries@[q].0@,
                forall|x: int, y: int| 0 <= x < a && x < y < entries@.len() ==> lex_lt(entries@[x].0@, entries@[y].0@),
                forall|y: int| a < y < b ==> lex_lt(entries@[a as int].0@, entries@[y].0@),
            decreases keys@.len() - b,
        {
            if !lex_less(&keys[a], &keys[b]) {
                return false;
            }
            b = b + 1;
        }
        a = a + 1;
    }
    true
}

impl Value {
    /// Whether this value is in canonical form.
    pub fn is_canonical(&self) -> (r: bool)
        ensures
            r == value_wf(*self),
        decreases self,
    {
        match self {
            Value::Array(xs) => {
                let mut i: usize = 0;
                while i < xs.len()
                    invariant
                        0 <= i <= xs@.len(),
                        *self == Value::Array(*xs),
                        forall|k: int| 0 <= k < i ==> value_wf(#[trigger] xs@[k]),
                    decreases xs@.len() - i,
                {
                    proof {
                        assert(decreases_to!(*self => self->Array_0));
                        assert(decreases_to!(self->Array_0 => self->Array_0@));
                        assert(decreases_to!(self->Array_0@ => self->Array_0@[i as int]));
                    }
                    if !xs[i].is_canonical() {
                        return false;
                    }
                    i = i + 1;
                }
                true
            },
            Value::Dict(xs) => {
                if !keys_increase(xs) {
                    return false;
                }
                let mut i: usize = 0;
                while i < xs.len()
                    invariant
                        0 <= i <= xs@.len(),
                        *self == Value::Dict(*xs),
                        keys_sorted(xs@),
                        forall|k: int| 0 <= k < i ==> value_wf((#[trigger] xs@[k]).1),
                    decreases xs@.len() - i,
                {
                    proof {
                        assert(decreases_to!(*self => self->Dict_0));
                        assert(decreases_to!(self->Dict_0 => self->Dict_0@));
                        assert(decreases_to!(self->Dict_0@ => self->Dict_0@[i as int]));
                        assert(decreases_to!(self->Dict_0@[i as int] => self->Dict_0@[i as int].1));
                    }
                    if !xs[i].1.is_canonical() {
                        return false;
                    }
                    i = i + 1;
                }
                true
            },
            _ => true,
        }
    }
}

/// Two canonical mappings that hold the same entries, in whatever order they were
/// given, are the same mapping and have the same digest.
pub proof fn lemma_canonical_dicts_agree(d1: Vec<(String, Value)>, d2: Vec<(String, Value)>)
    requires
        value_wf(Value::Dict(d1)),
        value_wf(Value::Dict(d2)),
        same_entries(d1@, d2@),
    ensures
        d1@ == d2@,
        digest_spec(value_bytes(Value::Dict(d1))) == digest_spec(value_bytes(Value::Dict(d2))),
{
    lemma_sorted_unique(d1@, d2@);
}

} // verus!
