//! The dynamic, self-describing value tree, its abstraction function, and
//! its encoder.

use vstd::prelude::*;

use crate::model::{
    be_bytes, lemma_encode_items_push, lemma_encode_pairs_push, lemma_pairs_size_elem,
    lemma_vals_size_elem, neg_rep, pair_size, pairs_size, spec_encode_items, spec_encode_simple,
    spec_encode_val, spec_header, table_pairs, val_size, vals_size, Val,
};

verus! {

broadcast use vstd::std_specs::vec::axiom_vec_index_decreases;

/// A CBOR simple value (major type 7, minor 0..=24).
#[derive(Clone, Copy, Debug, PartialEq, Eq, Hash, Structural)]
pub enum Simple {
    False,
    True,
    Null,
    Undefined,
    Unassigned(u8),
}

/// One key/value pair of a [`Value::Table`]; pair order mirrors decode or
/// construction order.
#[derive(Debug, Hash)]
pub struct KeyVal {
    pub key: Value,
    pub val: Value,
}

/// The dynamic value tree produced by the decoder and consumed by the
/// encoder.
///
/// A floating-point item is carried as the raw bit pattern of an IEEE-754
/// double (`Float`), exactly the eight bytes that stand on the wire; callers
/// that want the number itself reinterpret the bits.
#[derive(Debug, Hash)]
pub enum Value {
    Unsigned(u64),
    Negative(i64),
    ByteString(Vec<u8>),
    Utf8String(String),
    Array(Vec<Value>),
    Table(Vec<KeyVal>),
    Float(u64),
    Simple(Simple),
}

impl View for Value {
    type V = Val;

    open spec fn view(&self) -> Val {
        value_view(*self)
    }
}

impl View for KeyVal {
    type V = (Val, Val);

    open spec fn view(&self) -> (Val, Val) {
        (value_view(self.key), value_view(self.val))
    }
}

/// The abstraction of one [`Value`] as a [`Val`].
pub open spec fn value_view(v: Value) -> Val
    decreases v, 0int, 0int,
{
    match v {
        Value::Unsigned(x) => Val::Unsigned(x),
        Value::Negative(x) => Val::Negative(x),
        Value::ByteString(b) => Val::Bytes(b@),
        Value::Utf8String(s) => Val::Text(s@),
        Value::Array(a) => Val::Array(elem_views(a, a.len() as int)),
        Value::Table(m) => Val::Table(pair_views(m, m.len() as int)),
        Value::Float(bits) => Val::Float(bits),
        Value::Simple(s) => Val::Simple(s),
    }
}

/// The abstraction of one [`KeyVal`] as a pair.
pub open spec fn kv_view(kv: KeyVal) -> (Val, Val)
    decreases kv, 0int, 0int,
{
    (value_view(kv.key), value_view(kv.val))
}

/// The abstractions of the first `n` elements of `a`, in order.
pub open spec fn elem_views(a: Vec<Value>, n: int) -> Seq<Val>
    decreases a, 1int, n,
{
    if n <= 0 || n > a.len() {
        Seq::empty()
    } else {
        elem_views(a, n - 1).push(value_view(a[n - 1]))
    }
}

/// The abstractions of all elements of `a`, in order.
pub open spec fn views_of(a: Vec<Value>) -> Seq<Val> {
    elem_views(a, a.len() as int)
}

/// `elem_views` walks the first `n` elements one abstraction at a time.
pub proof fn lemma_elem_views_index(a: Vec<Value>, n: int)
    requires
        0 <= n <= a.len(),
    ensures
        elem_views(a, n).len() == n,
        forall|i: int| 0 <= i < n ==> elem_views(a, n)[i] == value_view(a[i]),
    decreases n,
{
    if n > 0 {
        lemma_elem_views_index(a, n - 1);
    }
}

/// The abstractions of all pairs of `m`, in order.
pub open spec fn pair_views_of(m: Vec<KeyVal>) -> Seq<(Val, Val)> {
    pair_views(m, m.len() as int)
}

/// The abstractions of the first `n` pairs of `m`, in order.
pub open spec fn pair_views(m: Vec<KeyVal>, n: int) -> Seq<(Val, Val)>
    decreases m, 1int, n,
{
    if n <= 0 || n > m.len() {
        Seq::empty()
    } else {
        pair_views(m, n - 1).push(kv_view(m[n - 1]))
    }
}

/// `pair_views` walks the first `n` pairs one abstraction at a time.
pub proof fn lemma_pair_views_index(m: Vec<KeyVal>, n: int)
    requires
        0 <= n <= m.len(),
    ensures
        pair_views(m, n).len() == n,
        forall|i: int| 0 <= i < n ==> pair_views(m, n)[i] == kv_view(m[i]),
    decreases n,
{
    if n > 0 {
        lemma_pair_views_index(m, n - 1);
    }
}

/// Compares two byte vectors by contents.
fn bytes_eq(a: &Vec<u8>, b: &Vec<u8>) -> (r: bool)
    ensures
        r == (a@ == b@),
{
    if a.len() != b.len() {
        return false;
    }
    let mut i: usize = 0;
    while i < a.len()
        invariant
            i <= a.len(),
            a@.len() == b@.len(),
            forall|j: int| 0 <= j < i ==> a[j] == b[j],
        decreases a.len() - i,
    {
        if a[i] != b[i] {
            return false;
        }
        i = i + 1;
    }
    proof {
        assert(a@ =~= b@);
    }
    true
}

/// Compares two value trees structurally, recursing through the whole
/// tree: the deep equality that lets any value serve as a map key. Two
/// floating-point items are equal exactly when their bit patterns are.
fn value_eq(a: &Value, b: &Value) -> (r: bool)
    ensures
        r == (a@ == b@),
    decreases val_size(a@),
{
    match (a, b) {
        (Value::Unsigned(x), Value::Unsigned(y)) => *x == *y,
        (Value::Negative(x), Value::Negative(y)) => *x == *y,
        (Value::ByteString(x), Value::ByteString(y)) => bytes_eq(x, y),
        (Value::Utf8String(x), Value::Utf8String(y)) => *x == *y,
        (Value::Array(x), Value::Array(y)) => {
            proof {
                lemma_elem_views_index(*x, x@.len() as int);
                lemma_elem_views_index(*y, y@.len() as int);
            }
            if x.len() != y.len() {
                proof {
                    assert(views_of(*x).len() != views_of(*y).len());
                }
                return false;
            }
            let mut i: usize = 0;
            while i < x.len()
                invariant
                    i <= x.len(),
                    x@.len() == y@.len(),
                    a@ == Val::Array(views_of(*x)),
                    b@ == Val::Array(views_of(*y)),
                    views_of(*x).len() == x@.len(),
                    views_of(*y).len() == y@.len(),
                    forall|j: int| 0 <= j < x@.len() ==> views_of(*x)[j] == value_view(x[j]),
                    forall|j: int| 0 <= j < y@.len() ==> views_of(*y)[j] == value_view(y[j]),
                    forall|j: int| 0 <= j < i ==> value_view(x[j]) == value_view(y[j]),
                decreases x@.len() - i,
            {
                proof {
                    lemma_vals_size_elem(views_of(*x), i as int);
                }
                if !value_eq(&x[i], &y[i]) {
                    proof {
                        assert(views_of(*x)[i as int] != views_of(*y)[i as int]);
                    }
                    return false;
                }
                i = i + 1;
            }
            proof {
                assert(views_of(*x) =~= views_of(*y));
            }
            true
        },
        (Value::Table(x), Value::Table(y)) => {
            proof {
                lemma_pair_views_index(*x, x@.len() as int);
                lemma_pair_views_index(*y, y@.len() as int);
            }
            if x.len() != y.len() {
                proof {
                    assert(pair_views_of(*x).len() != pair_views_of(*y).len());
                }
                return false;
            }
            let mut i: usize = 0;
            while i < x.len()
                invariant
                    i <= x.len(),
                    x@.len() == y@.len(),
                    a@ == Val::Table(pair_views_of(*x)),
                    b@ == Val::Table(pair_views_of(*y)),
                    pair_views_of(*x).len() == x@.len(),
                    pair_views_of(*y).len() == y@.len(),
                    forall|j: int| 0 <= j < x@.len() ==> pair_views_of(*x)[j] == kv_view(x[j]),
                    forall|j: int| 0 <= j < y@.len() ==> pair_views_of(*y)[j] == kv_view(y[j]),
                    forall|j: int| 0 <= j < i ==> kv_view(x[j]) == kv_view(y[j]),
                decreases x@.len() - i,
            {
                proof {
                    lemma_pairs_size_elem(pair_views_of(*x), i as int);
                }
                let keys_equal = value_eq(&x[i].key, &y[i].key);
                if !keys_equal {
                    proof {
                        assert(pair_views_of(*x)[i as int] != pair_views_of(*y)[i as int]);
                    }
                    return false;
                }
                let vals_equal = value_eq(&x[i].val, &y[i].val);
                if !vals_equal {
                    proof {
                        assert(pair_views_of(*x)[i as int] != pair_views_of(*y)[i as int]);
                    }
                    return false;
                }
                i = i + 1;
            }
            proof {
                assert(pair_views_of(*x) =~= pair_views_of(*y));
            }
            true
        },
        (Value::Float(x), Value::Float(y)) => *x == *y,
        (Value::Simple(x), Value::Simple(y)) => *x == *y,
        _ => false,
    }
}

impl PartialEq for Value {
    fn eq(&self, other: &Self) -> (r: bool) {
        value_eq(self, other)
    }
}

impl vstd::std_specs::cmp::PartialEqSpecImpl for Value {
    open spec fn obeys_eq_spec() -> bool {
        true
    }

    open spec fn eq_spec(&self, other: &Value) -> bool {
        self@ == other@
    }
}

impl Eq for Value {

}

impl PartialEq for KeyVal {
    fn eq(&self, other: &Self) -> (r: bool) {
        value_eq(&self.key, &other.key) && value_eq(&self.val, &other.val)
    }
}

impl vstd::std_specs::cmp::PartialEqSpecImpl for KeyVal {
    open spec fn obeys_eq_spec() -> bool {
        true
    }

    open spec fn eq_spec(&self, other: &KeyVal) -> bool {
        self@ == other@
    }
}

impl Eq for KeyVal {

}

/// Copies a byte vector.
fn clone_bytes(a: &Vec<u8>) -> (r: Vec<u8>)
    ensures
        r@ == a@,
{
    let mut out: Vec<u8> = Vec::new();
    let mut i: usize = 0;
    while i < a.len()
        invariant
            i <= a.len(),
            out@ == a@.subrange(0, i as int),
        decreases a.len() - i,
    {
        out.push(a[i]);
        proof {
            assert(out@ =~= a@.subrange(0, (i + 1) as int));
        }
        i = i + 1;
    }
    proof {
        assert(a@.subrange(0, a@.len() as int) =~= a@);
    }
    out
}

impl Clone for Value {
    /// A clone is always a full deep copy with the same abstraction; value
    /// trees are never shared.
    fn clone(&self) -> (r: Self)
        ensures
            r@ == self@,
        decreases val_size(self@),
    {
        match self {
            Value::Unsigned(x) => Value::Unsigned(*x),
            Value::Negative(x) => Value::Negative(*x),
            Value::ByteString(x) => Value::ByteString(clone_bytes(x)),
            Value::Utf8String(x) => Value::Utf8String(x.clone()),
            Value::Array(x) => {
                proof {
                    lemma_elem_views_index(*x, x@.len() as int);
                }
                let mut out: Vec<Value> = Vec::new();
                let mut i: usize = 0;
                while i < x.len()
                    invariant
                        i <= x.len(),
                        self@ == Val::Array(views_of(*x)),
                        views_of(*x).len() == x@.len(),
                        forall|j: int| 0 <= j < x@.len() ==> views_of(*x)[j] == value_view(x[j]),
                        out@.len() == i,
                        forall|j: int| 0 <= j < i ==> value_view(out[j]) == value_view(x[j]),
                    decreases x@.len() - i,
                {
                    proof {
                        lemma_vals_size_elem(views_of(*x), i as int);
                    }
                    let c = x[i].clone();
                    out.push(c);
                    i = i + 1;
                }
                proof {
                    lemma_elem_views_index(out, out@.len() as int);
                    assert(views_of(out) =~= views_of(*x));
                }
                Value::Array(out)
            },
            Value::Table(x) => {
                proof {
                    lemma_pair_views_index(*x, x@.len() as int);
                }
                let mut out: Vec<KeyVal> = Vec::new();
                let mut i: usize = 0;
                while i < x.len()
                    invariant
                        i <= x.len(),
                        self@ == Val::Table(pair_views_of(*x)),
                        pair_views_of(*x).len() == x@.len(),
                        forall|j: int| 0 <= j < x@.len() ==> pair_views_of(*x)[j] == kv_view(x[j]),
                        out@.len() == i,
                        forall|j: int| 0 <= j < i ==> kv_view(out[j]) == kv_view(x[j]),
                    decreases x@.len() - i,
                {
                    proof {
                        lemma_pairs_size_elem(pair_views_of(*x), i as int);
                    }
                    let k = x[i].key.clone();
                    let v = x[i].val.clone();
                    out.push(KeyVal { key: k, val: v });
                    i = i + 1;
                }
                proof {
                    lemma_pair_views_index(out, out@.len() as int);
                    assert(pair_views_of(out) =~= pair_views_of(*x));
                }
                Value::Table(out)
            },
            Value::Float(x) => Value::Float(*x),
            Value::Simple(x) => Value::Simple(*x),
        }
    }
}

impl Clone for KeyVal {
    /// A clone is a full deep copy of both sides of the pair.
    fn clone(&self) -> (r: Self)
        ensures
            r@ == self@,
    {
        KeyVal { key: self.key.clone(), val: self.val.clone() }
    }
}

/// Whether the hash-map entry `(k, v)` carries the views of one pair of
/// `ps`.
pub open spec fn gathered_entry(ps: Seq<(Val, Val)>, k: Value, v: Value) -> bool {
    exists|j: int| #![auto] 0 <= j < ps.len() && k@ == ps[j].0 && v@ == ps[j].1
}

/// Whether each of the first `hi` pairs of `ps` has left a key with its
/// view in `m`.
pub open spec fn keys_gathered_upto(ps: Seq<(Val, Val)>, hi: int, m: Map<Value, Value>) -> bool {
    forall|j: int|
        #![trigger ps[j]]
        0 <= j < hi ==> exists|k: Value| #![auto] m.contains_key(k) && k@ == ps[j].0
}

/// The major type that the encoder gives a value of this shape: floats and
/// simple values share major type 7.
pub open spec fn major_of(v: Val) -> u8 {
    match v {
        Val::Unsigned(_) => 0,
        Val::Negative(_) => 1,
        Val::Bytes(_) => 2,
        Val::Text(_) => 3,
        Val::Array(_) => 4,
        Val::Table(_) => 5,
        Val::Float(_) => 7,
        Val::Simple(_) => 7,
    }
}

impl Value {
    /// The major type the encoder gives this value.
    pub fn major(&self) -> (r: u8)
        ensures
            r == major_of(self@),
    {
        match self {
            Value::Unsigned(_) => 0,
            Value::Negative(_) => 1,
            Value::ByteString(_) => 2,
            Value::Utf8String(_) => 3,
            Value::Array(_) => 4,
            Value::Table(_) => 5,
            Value::Float(_) => 7,
            Value::Simple(_) => 7,
        }
    }

    /// The unsigned integer this value holds, if it is one.
    pub fn get_uint(&self) -> (r: Option<u64>)
        ensures
            r == (match self@ {
                Val::Unsigned(x) => Some(x),
                _ => None::<u64>,
            }),
    {
        match self {
            Value::Unsigned(x) => Some(*x),
            _ => None,
        }
    }

    /// The negative integer this value holds, if it is one.
    pub fn get_neg(&self) -> (r: Option<i64>)
        ensures
            r == (match self@ {
                Val::Negative(x) => Some(x),
                _ => None::<i64>,
            }),
    {
        match self {
            Value::Negative(x) => Some(*x),
            _ => None,
        }
    }

    /// The bit pattern of the IEEE-754 double this value holds, if it is a
    /// float.
    pub fn get_float(&self) -> (r: Option<u64>)
        ensures
            r == (match self@ {
                Val::Float(bits) => Some(bits),
                _ => None::<u64>,
            }),
    {
        match self {
            Value::Float(x) => Some(*x),
            _ => None,
        }
    }

    /// A copy of the byte string this value holds, if it is one.
    pub fn get_bytes(&self) -> (r: Option<Vec<u8>>)
        ensures
            match r {
                Some(b) => self@ matches Val::Bytes(s) && b@ == s,
                None => !(self@ is Bytes),
            },
    {
        match self {
            Value::ByteString(x) => Some(clone_bytes(x)),
            _ => None,
        }
    }

    /// A copy of the text string this value holds, if it is one.
    pub fn get_string(&self) -> (r: Option<String>)
        ensures
            match r {
                Some(s) => self@ matches Val::Text(t) && s@ == t,
                None => !(self@ is Text),
            },
    {
        match self {
            Value::Utf8String(x) => Some(x.clone()),
            _ => None,
        }
    }

    /// A deep copy of the element vector this value holds, if it is an
    /// array.
    pub fn get_array(&self) -> (r: Option<Vec<Value>>)
        ensures
            match r {
                Some(a) => self@ matches Val::Array(vs) && views_of(a) == vs,
                None => !(self@ is Array),
            },
    {
        match self.clone() {
            Value::Array(a) => Some(a),
            _ => None,
        }
    }

    /// A deep copy of the pair vector this value holds, if it is a map.
    pub fn get_map(&self) -> (r: Option<Vec<KeyVal>>)
        ensures
            match r {
                Some(m) => self@ matches Val::Table(ps) && pair_views_of(m) == ps,
                None => !(self@ is Table),
            },
    {
        match self.clone() {
            Value::Table(m) => Some(m),
            _ => None,
        }
    }

    /// The pairs of a map value gathered into a hash map keyed by deep
    /// structural equality. Later duplicates of a key displace earlier
    /// ones; order is lost. The content clauses hold under vstd's hash
    /// key-model premise: every entry carries the views of one pair, and
    /// every pair has left a key with its view. Which duplicate survives
    /// is not stated: the map collapses keys by their views, while the
    /// spec-level map is keyed by values, which their views do not
    /// determine.
    pub fn get_hash_map(&self) -> (r: Option<std::collections::HashMap<Value, Value>>)
        ensures
            r is Some <==> self@ is Table,
            vstd::std_specs::hash::obeys_key_model::<Value>() ==> (match r {
                Some(m) => {
                    &&& m@.dom().finite()
                    &&& m@.len() <= table_pairs(self@).len()
                    &&& forall|k: Value| #[trigger] m@.contains_key(k) ==> gathered_entry(
                        table_pairs(self@),
                        k,
                        m@[k],
                    )
                    &&& keys_gathered_upto(
                        table_pairs(self@),
                        table_pairs(self@).len() as int,
                        m@,
                    )
                },
                None => true,
            }),
    {
        broadcast use vstd::std_specs::hash::group_hash_axioms;
        broadcast use vstd::set::group_set_axioms;

        match self {
            Value::Table(x) => {
                proof {
                    lemma_pair_views_index(*x, x.len() as int);
                }
                let ghost ps0 = pair_views_of(*x);
                let ghost cond = vstd::std_specs::hash::obeys_key_model::<Value>();
                let mut m = std::collections::HashMap::<Value, Value>::new();
                let mut i: usize = 0;
                while i < x.len()
                    invariant
                        i <= x.len(),
                        cond == vstd::std_specs::hash::obeys_key_model::<Value>(),
                        ps0 == pair_views_of(*x),
                        ps0.len() == x@.len(),
                        forall|j: int| 0 <= j < x@.len() ==> ps0[j] == kv_view(x@[j]),
                        cond ==> m@.dom().finite() && m@.len() <= i,
                        cond ==> forall|k: Value| #[trigger] m@.contains_key(k)
                            ==> gathered_entry(ps0, k, m@[k]),
                        cond ==> keys_gathered_upto(ps0, i as int, m@),
                    decreases x@.len() - i,
                {
                    broadcast use vstd::std_specs::hash::group_hash_axioms;
                    broadcast use vstd::set::group_set_axioms;

                    let kv = x[i].clone();
                    let ghost m_old = m@;
                    let ghost key_snap = kv.key;
                    let ghost val_snap = kv.val;
                    m.insert(kv.key, kv.val);
                    proof {
                        if cond {
                            assert(key_snap@ == ps0[i as int].0 && val_snap@
                                == ps0[i as int].1);
                            assert(gathered_entry(ps0, key_snap, val_snap));
                            assert forall|k: Value| #[trigger] m@.contains_key(k)
                                implies gathered_entry(ps0, k, m@[k]) by {
                                if k != key_snap {
                                    assert(m_old.contains_key(k) && m@[k] == m_old[k]);
                                }
                            }
                            assert forall|j: int| #![trigger ps0[j]] 0 <= j < i + 1 implies exists|
                                k: Value,
                            |
                                #![auto]
                                m@.contains_key(k) && k@ == ps0[j].0 by {
                                if j < i {
                                    let kw = choose|k: Value|
                                        #![auto]
                                        m_old.contains_key(k) && k@ == ps0[j].0;
                                    assert(m@.contains_key(kw) && kw@ == ps0[j].0);
                                } else {
                                    assert(m@.contains_key(key_snap) && key_snap@
                                        == ps0[j].0);
                                }
                            }
                        }
                    }
                    i = i + 1;
                }
                Some(m)
            },
            _ => None,
        }
    }
}

impl Simple {
    /// Encodes this simple value: the four named values and the unassigned
    /// codes below 20 take one byte; every other code takes the two-byte
    /// extended form. The reserved codes 20..=31 have no well-formed
    /// encoding, so their two-byte form is one the decoder rejects.
    pub fn encode(&self) -> (v: Vec<u8>)
        ensures
            v@ == spec_encode_simple(*self),
    {
        let mut v = Vec::<u8>::new();
        match self {
            Simple::False => v.push(0xF4),
            Simple::True => v.push(0xF5),
            Simple::Null => v.push(0xF6),
            Simple::Undefined => v.push(0xF7),
            Simple::Unassigned(x) => {
                if *x < 20 {
                    v.push(0xE0 + *x);
                } else {
                    v.push(0xF8);
                    v.push(*x);
                }
            },
        }
        proof {
            assert(v@ =~= spec_encode_simple(*self));
        }
        v
    }
}

/// Pushes the `w` big-endian bytes of `x`.
fn push_be(bytes: &mut Vec<u8>, x: u64, w: usize)
    ensures
        final(bytes)@ == old(bytes)@ + be_bytes(x, w as int),
    decreases w,
{
    if w > 0 {
        push_be(bytes, x / 256, w - 1);
        bytes.push((x % 256) as u8);
        proof {
            assert(final(bytes)@ =~= old(bytes)@ + be_bytes(x, w as int));
        }
    } else {
        proof {
            assert(old(bytes)@ + be_bytes(x, 0) =~= old(bytes)@);
        }
    }
}

impl Value {
    /// Pushes the minimal-length header for major type `major` and compact
    /// value `x`: the five-bit immediate when `x` fits it, else the 1-, 2-,
    /// 4- or 8-byte form, whichever is shortest.
    fn encode_compact_uint(bytes: &mut Vec<u8>, x: u64, major: u8)
        requires
            major < 8,
        ensures
            final(bytes)@ == old(bytes)@ + spec_header(major, x),
    {
        let b: u8 = major * 32;
        if x <= 23 {
            bytes.push(b + (x as u8));
            proof {
                assert(final(bytes)@ =~= old(bytes)@ + spec_header(major, x));
            }
        } else {
            let w: usize = if x <= 0xFF {
                1
            } else if x <= 0xFFFF {
                2
            } else if x <= 0xFFFFFFFF {
                4
            } else {
                8
            };
            let marker: u8 = if x <= 0xFF {
                24
            } else if x <= 0xFFFF {
                25
            } else if x <= 0xFFFFFFFF {
                26
            } else {
                27
            };
            bytes.push(b + marker);
            push_be(bytes, x, w);
            proof {
                assert(final(bytes)@ =~= old(bytes)@ + spec_header(major, x));
            }
        }
    }

    /// Pushes the minimal-length header carrying major type `item_code` and
    /// the length or count `len`. A length above the 4-byte range takes
    /// the format's full 8-byte field, the one form this decoder reads
    /// back correctly; see [`spec_header`].
    fn push_major_and_len(bytes: &mut Vec<u8>, len: usize, item_code: u8)
        requires
            item_code < 8,
        ensures
            final(bytes)@ == old(bytes)@ + spec_header(item_code, len as u64),
    {
        Value::encode_compact_uint(bytes, len as u64, item_code);
    }

    /// Pushes a string header followed by the payload bytes themselves.
    fn add_bytes(bytes: &mut Vec<u8>, x: &[u8], item_code: u8)
        requires
            item_code < 8,
        ensures
            final(bytes)@ == old(bytes)@ + (spec_header(item_code, x@.len() as u64) + x@),
    {
        Value::push_major_and_len(bytes, x.len(), item_code);
        let mut tail = vstd::slice::slice_to_vec(x);
        bytes.append(&mut tail);
        proof {
            assert(final(bytes)@ =~= old(bytes)@ + (spec_header(item_code, x@.len() as u64)
                + x@));
        }
    }

    /// Serializes this value to its minimal-length, definite-length
    /// encoding; an indefinite-length input therefore re-encodes to
    /// different wire bytes with the same logical content.
    pub fn encode_compact(&self) -> (r: Vec<u8>)
        ensures
            r@ == spec_encode_val(self@),
        decreases val_size(self@),
    {
        let mut bytes = Vec::<u8>::new();
        match self {
            Value::Unsigned(x) => {
                Value::encode_compact_uint(&mut bytes, *x, 0);
            },
            Value::Negative(x) => {
                let u: u64 = if *x < 0 {
                    (-1 - *x) as u64
                } else {
                    u64::MAX - (*x as u64)
                };
                proof {
                    assert(u == neg_rep(*x));
                }
                Value::encode_compact_uint(&mut bytes, u, 1);
            },
            Value::ByteString(x) => {
                Value::add_bytes(&mut bytes, x.as_slice(), 2);
            },
            Value::Utf8String(x) => {
                Value::add_bytes(&mut bytes, x.as_str().as_bytes(), 3);
            },
            Value::Array(x) => {
                let len = x.len();
                Value::push_major_and_len(&mut bytes, len, 4);
                let ghost vs = views_of(*x);
                let ghost header = bytes@;
                proof {
                    lemma_elem_views_index(*x, len as int);
                }
                let mut i: usize = 0;
                while i < len
                    invariant
                        i <= len,
                        len == x@.len(),
                        vs == views_of(*x),
                        vs.len() == len,
                        forall|j: int| 0 <= j < len ==> vs[j] == value_view(x[j]),
                        self is Array && self->Array_0 == *x,
                        bytes@ == header + spec_encode_items(vs.subrange(0, i as int)),
                    decreases len - i,
                {
                    proof {
                        lemma_vals_size_elem(vs, i as int);
                    }
                    let mut piece = x[i].encode_compact();
                    bytes.append(&mut piece);
                    proof {
                        lemma_encode_items_push(vs.subrange(0, i as int), vs[i as int]);
                        assert(vs.subrange(0, (i + 1) as int) =~= vs.subrange(0, i as int).push(
                            vs[i as int],
                        ));
                        assert(bytes@ =~= header + spec_encode_items(
                            vs.subrange(0, (i + 1) as int),
                        ));
                    }
                    i = i + 1;
                }
                proof {
                    assert(vs.subrange(0, vs.len() as int) =~= vs);
                }
            },
            Value::Table(x) => {
                let len = x.len();
                Value::push_major_and_len(&mut bytes, len, 5);
                let ghost ps = pair_views_of(*x);
                let ghost header = bytes@;
                proof {
                    lemma_pair_views_index(*x, len as int);
                }
                let mut i: usize = 0;
                while i < len
                    invariant
                        i <= len,
                        len == x@.len(),
                        ps == pair_views_of(*x),
                        ps.len() == len,
                        forall|j: int| 0 <= j < len ==> ps[j] == kv_view(x[j]),
                        self is Table && self->Table_0 == *x,
                        bytes@ == header + crate::model::spec_encode_pairs(
                            ps.subrange(0, i as int),
                        ),
                    decreases len - i,
                {
                    proof {
                        lemma_pairs_size_elem(ps, i as int);
                    }
                    let mut piece_key = x[i].key.encode_compact();
                    bytes.append(&mut piece_key);
                    let mut piece_val = x[i].val.encode_compact();
                    bytes.append(&mut piece_val);
                    proof {
                        lemma_encode_pairs_push(ps.subrange(0, i as int), ps[i as int]);
                        assert(ps.subrange(0, (i + 1) as int) =~= ps.subrange(0, i as int).push(
                            ps[i as int],
                        ));
                        assert(bytes@ =~= header + crate::model::spec_encode_pairs(
                            ps.subrange(0, (i + 1) as int),
                        ));
                    }
                    i = i + 1;
                }
                proof {
                    assert(ps.subrange(0, ps.len() as int) =~= ps);
                }
            },
            Value::Float(x) => {
                bytes.push(0xFB);
                push_be(&mut bytes, *x, 8);
                proof {
                    assert(bytes@ =~= seq![0xFBu8] + be_bytes(*x, 8));
                }
            },
            Value::Simple(x) => {
                let mut sv = x.encode();
                bytes.append(&mut sv);
                proof {
                    assert(bytes@ =~= spec_encode_simple(*x));
                }
            },
        }
        proof {
            assert(bytes@ =~= spec_encode_val(self@));
        }
        bytes
    }

    /// Serializes this value; the output is always the minimal-length,
    /// definite-length form.
    pub fn encode(&self) -> (r: Vec<u8>)
        ensures
            r@ == spec_encode_val(self@),
    {
        self.encode_compact()
    }
}

} // verus!
