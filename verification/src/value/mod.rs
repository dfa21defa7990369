//! The dynamic value tree and the conversion layer between it and native
//! typed containers.
//!
//! Conversion is best-effort and element-level lossy: inside a sequence or
//! map target, an element or entry that does not convert to the target
//! element type is dropped; only a top-level shape mismatch fails the whole
//! conversion. The consuming and the borrowing path of each conversion
//! satisfy one and the same specification.

pub mod types;

pub use types::KeyVal;
pub use types::Simple;
pub use types::Value;

use vstd::prelude::*;

use crate::model::{table_pairs, Val};
use types::{kv_view, lemma_elem_views_index, lemma_pair_views_index, pair_views_of, value_view,
    views_of};

verus! {

/// A capability to build a value of the implementing type out of a dynamic
/// [`Value`], selected at compile time. The two entry points, consuming
/// and borrowing, satisfy one specification: `from_value` and `from_ref`
/// accept exactly the same trees and relate their results to the tree in
/// the same way.
pub trait FromValue: Sized {
    /// Whether a tree of this shape converts to the target type.
    spec fn convertible(v: Val) -> bool;

    /// How an accepted conversion result stands for the source tree.
    spec fn converted(v: Val, r: Self) -> bool;

    /// Converts by consuming the tree.
    fn from_value(v: Value) -> (r: Option<Self>)
        ensures
            r is Some <==> Self::convertible(v@),
            r matches Some(x) ==> Self::converted(v@, x),
    ;

    /// Converts by reading the tree, copying only leaf data.
    fn from_ref(v: &Value) -> (r: Option<Self>)
        ensures
            r is Some <==> Self::convertible(v@),
            r matches Some(x) ==> Self::converted(v@, x),
    ;
}

impl FromValue for Value {
    open spec fn convertible(v: Val) -> bool {
        true
    }

    open spec fn converted(v: Val, r: Self) -> bool {
        r@ == v
    }

    fn from_value(v: Value) -> (r: Option<Self>) {
        Some(v)
    }

    fn from_ref(v: &Value) -> (r: Option<Self>) {
        Some(v.clone())
    }
}

impl FromValue for u64 {
    open spec fn convertible(v: Val) -> bool {
        match v {
            Val::Unsigned(_) => true,
            Val::Negative(x) => x >= 0,
            _ => false,
        }
    }

    open spec fn converted(v: Val, r: Self) -> bool {
        match v {
            Val::Unsigned(x) => r == x,
            Val::Negative(x) => r == x as u64,
            _ => false,
        }
    }

    fn from_value(v: Value) -> (r: Option<Self>) {
        u64::from_ref(&v)
    }

    fn from_ref(v: &Value) -> (r: Option<Self>) {
        match v {
            Value::Unsigned(x) => Some(*x),
            Value::Negative(x) => {
                if *x >= 0 {
                    Some(*x as u64)
                } else {
                    None
                }
            },
            _ => None,
        }
    }
}

impl FromValue for u32 {
    open spec fn convertible(v: Val) -> bool {
        match v {
            Val::Unsigned(x) => x <= u32::MAX,
            Val::Negative(x) => 0 <= x <= u32::MAX,
            _ => false,
        }
    }

    open spec fn converted(v: Val, r: Self) -> bool {
        match v {
            Val::Unsigned(x) => r == x,
            Val::Negative(x) => r == x,
            _ => false,
        }
    }

    fn from_value(v: Value) -> (r: Option<Self>) {
        u32::from_ref(&v)
    }

    fn from_ref(v: &Value) -> (r: Option<Self>) {
        match v {
            Value::Unsigned(x) => {
                if *x <= u32::MAX as u64 {
                    Some(*x as u32)
                } else {
                    None
                }
            },
            Value::Negative(x) => {
                if 0 <= *x && *x <= u32::MAX as i64 {
                    Some(*x as u32)
                } else {
                    None
                }
            },
            _ => None,
        }
    }
}

impl FromValue for usize {
    open spec fn convertible(v: Val) -> bool {
        match v {
            Val::Unsigned(x) => x <= usize::MAX,
            Val::Negative(x) => 0 <= x <= usize::MAX,
            _ => false,
        }
    }

    open spec fn converted(v: Val, r: Self) -> bool {
        match v {
            Val::Unsigned(x) => r == x,
            Val::Negative(x) => r == x,
            _ => false,
        }
    }

    fn from_value(v: Value) -> (r: Option<Self>) {
        usize::from_ref(&v)
    }

    fn from_ref(v: &Value) -> (r: Option<Self>) {
        match v {
            Value::Unsigned(x) => {
                if *x <= usize::MAX as u64 {
                    Some(*x as usize)
                } else {
                    None
                }
            },
            Value::Negative(x) => {
                if 0 <= *x && (*x as u64) <= usize::MAX as u64 {
                    Some(*x as usize)
                } else {
                    None
                }
            },
            _ => None,
        }
    }
}

impl FromValue for i64 {
    open spec fn convertible(v: Val) -> bool {
        match v {
            Val::Unsigned(x) => x <= i64::MAX,
            Val::Negative(_) => true,
            _ => false,
        }
    }

    open spec fn converted(v: Val, r: Self) -> bool {
        match v {
            Val::Unsigned(x) => r == x,
            Val::Negative(x) => r == x,
            _ => false,
        }
    }

    fn from_value(v: Value) -> (r: Option<Self>) {
        i64::from_ref(&v)
    }

    fn from_ref(v: &Value) -> (r: Option<Self>) {
        match v {
            Value::Unsigned(x) => {
                if *x <= i64::MAX as u64 {
                    Some(*x as i64)
                } else {
                    None
                }
            },
            Value::Negative(x) => Some(*x),
            _ => None,
        }
    }
}

impl FromValue for i32 {
    open spec fn convertible(v: Val) -> bool {
        match v {
            Val::Unsigned(x) => x <= i32::MAX,
            Val::Negative(x) => i32::MIN <= x <= i32::MAX,
            _ => false,
        }
    }

    open spec fn converted(v: Val, r: Self) -> bool {
        match v {
            Val::Unsigned(x) => r == x,
            Val::Negative(x) => r == x,
            _ => false,
        }
    }

    fn from_value(v: Value) -> (r: Option<Self>) {
        i32::from_ref(&v)
    }

    fn from_ref(v: &Value) -> (r: Option<Self>) {
        match v {
            Value::Unsigned(x) => {
                if *x <= i32::MAX as u64 {
                    Some(*x as i32)
                } else {
                    None
                }
            },
            Value::Negative(x) => {
                if i32::MIN as i64 <= *x && *x <= i32::MAX as i64 {
                    Some(*x as i32)
                } else {
                    None
                }
            },
            _ => None,
        }
    }
}

impl FromValue for i8 {
    open spec fn convertible(v: Val) -> bool {
        match v {
            Val::Unsigned(x) => x <= i8::MAX,
            Val::Negative(x) => i8::MIN <= x <= i8::MAX,
            _ => false,
        }
    }

    open spec fn converted(v: Val, r: Self) -> bool {
        match v {
            Val::Unsigned(x) => r == x,
            Val::Negative(x) => r == x,
            _ => false,
        }
    }

    fn from_value(v: Value) -> (r: Option<Self>) {
        i8::from_ref(&v)
    }

    fn from_ref(v: &Value) -> (r: Option<Self>) {
        match v {
            Value::Unsigned(x) => {
                if *x <= i8::MAX as u64 {
                    Some(*x as i8)
                } else {
                    None
                }
            },
            Value::Negative(x) => {
                if i8::MIN as i64 <= *x && *x <= i8::MAX as i64 {
                    Some(*x as i8)
                } else {
                    None
                }
            },
            _ => None,
        }
    }
}

impl FromValue for isize {
    open spec fn convertible(v: Val) -> bool {
        match v {
            Val::Unsigned(x) => x <= isize::MAX,
            Val::Negative(x) => isize::MIN <= x <= isize::MAX,
            _ => false,
        }
    }

    open spec fn converted(v: Val, r: Self) -> bool {
        match v {
            Val::Unsigned(x) => r == x,
            Val::Negative(x) => r == x,
            _ => false,
        }
    }

    fn from_value(v: Value) -> (r: Option<Self>) {
        isize::from_ref(&v)
    }

    fn from_ref(v: &Value) -> (r: Option<Self>) {
        match v {
            Value::Unsigned(x) => {
                if *x <= isize::MAX as u64 {
                    Some(*x as isize)
                } else {
                    None
                }
            },
            Value::Negative(x) => {
                if isize::MIN as i64 <= *x && *x <= isize::MAX as i64 {
                    Some(*x as isize)
                } else {
                    None
                }
            },
            _ => None,
        }
    }
}

impl FromValue for String {
    open spec fn convertible(v: Val) -> bool {
        v is Text
    }

    open spec fn converted(v: Val, r: Self) -> bool {
        match v {
            Val::Text(t) => r@ == t,
            _ => false,
        }
    }

    fn from_value(v: Value) -> (r: Option<Self>) {
        v.get_string()
    }

    fn from_ref(v: &Value) -> (r: Option<Self>) {
        v.get_string()
    }
}

impl FromValue for bool {
    open spec fn convertible(v: Val) -> bool {
        v == Val::Simple(Simple::True) || v == Val::Simple(Simple::False)
    }

    open spec fn converted(v: Val, r: Self) -> bool {
        match v {
            Val::Simple(s) => (s == Simple::True && r == true) || (s == Simple::False && r
                == false),
            _ => false,
        }
    }

    fn from_value(v: Value) -> (r: Option<Self>) {
        bool::from_ref(&v)
    }

    fn from_ref(v: &Value) -> (r: Option<Self>) {
        match v {
            Value::Simple(x) => match x {
                Simple::True => Some(true),
                Simple::False => Some(false),
                _ => None,
            },
            _ => None,
        }
    }
}

/// The per-element rule of the byte-buffer slow path: an integer item in
/// 0..=255 gives that byte, anything else converts to nothing.
pub open spec fn u8_of_val(v: Val) -> Option<u8> {
    match v {
        Val::Unsigned(x) => if x <= 255 {
            Some(x as u8)
        } else {
            None
        },
        Val::Negative(x) => if 0 <= x <= 255 {
            Some(x as u8)
        } else {
            None
        },
        _ => None,
    }
}

/// The bytes that survive converting each element of `vs` to a byte, in
/// order, with non-convertible elements dropped.
pub open spec fn bytes_lossy(vs: Seq<Val>) -> Seq<u8>
    decreases vs.len(),
{
    if vs.len() == 0 {
        Seq::empty()
    } else {
        let rest = bytes_lossy(vs.subrange(1, vs.len() as int));
        match u8_of_val(vs[0]) {
            Some(b) => seq![b] + rest,
            None => rest,
        }
    }
}

/// The lossy-skip relation: `out` is exactly the convertible subsequence
/// of `srcs`, converted in order, with non-convertible elements dropped.
pub open spec fn seq_lossy_rel<T: FromValue>(srcs: Seq<Val>, out: Seq<T>) -> bool
    decreases srcs.len(),
{
    if srcs.len() == 0 {
        out.len() == 0
    } else {
        let rest = srcs.subrange(1, srcs.len() as int);
        if T::convertible(srcs[0]) {
            out.len() > 0 && T::converted(srcs[0], out[0]) && seq_lossy_rel(
                rest,
                out.subrange(1, out.len() as int),
            )
        } else {
            seq_lossy_rel(rest, out)
        }
    }
}

/// Each map entry wrapped as its own one-entry map: the compatibility
/// shape that lets a sequence of pairs be hydrated directly from a map.
pub open spec fn singleton_tables(ps: Seq<(Val, Val)>) -> Seq<Val> {
    Seq::new(ps.len(), |i: int| Val::Table(seq![ps[i]]))
}

/// Converts one element to a byte under the slow-path rule.
fn u8_from_val(v: &Value) -> (r: Option<u8>)
    ensures
        r == u8_of_val(v@),
{
    match v {
        Value::Unsigned(y) => {
            if *y <= 255 {
                Some(*y as u8)
            } else {
                None
            }
        },
        Value::Negative(y) => {
            if 0 <= *y && *y <= 255 {
                Some(*y as u8)
            } else {
                None
            }
        },
        _ => None,
    }
}

/// Converts the elements of an owned array, dropping what does not
/// convert.
fn convert_elems_owned<T: FromValue>(x: Vec<Value>) -> (r: Vec<T>)
    ensures
        seq_lossy_rel::<T>(views_of(x), r@),
{
    let ghost total = views_of(x);
    proof {
        lemma_elem_views_index(x, x.len() as int);
    }
    let mut rem = x;
    let mut out: Vec<T> = Vec::new();
    let ghost mut done: Seq<Val> = Seq::empty();
    while rem.len() > 0
        invariant
            seq_lossy_rel::<T>(done, out@),
            views_of(rem) + done == total,
            views_of(rem).len() == rem@.len(),
            forall|j: int| 0 <= j < rem@.len() ==> views_of(rem)[j] == value_view(rem[j]),
        decreases rem.len(),
    {
        let ghost old_rem = rem;
        let ghost done_prev = done;
        let item = rem.pop().unwrap();
        proof {
            lemma_elem_views_index(rem, rem.len() as int);
            assert(views_of(rem) =~= views_of(old_rem).subrange(
                0,
                views_of(old_rem).len() - 1,
            ));
            assert(item@ == views_of(old_rem)[views_of(old_rem).len() - 1]);
            done = seq![item@] + done;
            assert(done.subrange(1, done.len() as int) =~= done_prev);
            assert(views_of(rem) + done =~= views_of(old_rem) + done_prev);
        }
        let ghost old_out = out@;
        match T::from_value(item) {
            Some(c) => {
                out.insert(0, c);
                proof {
                    assert(out@ =~= seq![c] + old_out);
                    assert(out@.subrange(1, out@.len() as int) =~= old_out);
                }
            },
            None => {},
        }
    }
    proof {
        assert(views_of(rem).len() == 0);
        assert(views_of(rem) + done =~= done);
    }
    out
}

/// Converts the elements of a borrowed array, dropping what does not
/// convert.
fn convert_elems_ref<T: FromValue>(x: &Vec<Value>) -> (r: Vec<T>)
    ensures
        seq_lossy_rel::<T>(views_of(*x), r@),
{
    proof {
        lemma_elem_views_index(*x, x.len() as int);
    }
    let ghost total = views_of(*x);
    let mut out: Vec<T> = Vec::new();
    let mut i: usize = x.len();
    while i > 0
        invariant
            i <= x@.len(),
            total == views_of(*x),
            total.len() == x@.len(),
            forall|j: int| 0 <= j < x@.len() ==> total[j] == value_view(x[j]),
            seq_lossy_rel::<T>(total.subrange(i as int, total.len() as int), out@),
        decreases i,
    {
        i = i - 1;
        let ghost done = total.subrange(i as int + 1, total.len() as int);
        let ghost old_out = out@;
        match T::from_ref(&x[i]) {
            Some(c) => {
                out.insert(0, c);
                proof {
                    assert(out@ =~= seq![c] + old_out);
                    assert(out@.subrange(1, out@.len() as int) =~= old_out);
                }
            },
            None => {},
        }
        proof {
            let now = total.subrange(i as int, total.len() as int);
            assert(now[0] == total[i as int]);
            assert(now.subrange(1, now.len() as int) =~= done);
        }
    }
    proof {
        assert(total.subrange(0, total.len() as int) =~= total);
    }
    out
}

/// Wraps each pair of an owned map as a one-entry map and converts the
/// wrappers, dropping what does not convert.
fn convert_singletons_owned<T: FromValue>(m: Vec<KeyVal>) -> (r: Vec<T>)
    ensures
        seq_lossy_rel::<T>(singleton_tables(pair_views_of(m)), r@),
{
    let ghost total = singleton_tables(pair_views_of(m));
    proof {
        lemma_pair_views_index(m, m.len() as int);
    }
    let mut rem = m;
    let mut out: Vec<T> = Vec::new();
    let ghost mut done: Seq<Val> = Seq::empty();
    while rem.len() > 0
        invariant
            seq_lossy_rel::<T>(done, out@),
            singleton_tables(pair_views_of(rem)) + done == total,
            pair_views_of(rem).len() == rem@.len(),
            forall|j: int| 0 <= j < rem@.len() ==> pair_views_of(rem)[j] == kv_view(rem[j]),
        decreases rem.len(),
    {
        let ghost old_rem = rem;
        let ghost done_prev = done;
        let kv = rem.pop().unwrap();
        proof {
            lemma_pair_views_index(rem, rem.len() as int);
            assert(pair_views_of(rem) =~= pair_views_of(old_rem).subrange(
                0,
                pair_views_of(old_rem).len() - 1,
            ));
            assert(kv_view(kv) == pair_views_of(old_rem)[pair_views_of(old_rem).len() - 1]);
            done = seq![Val::Table(seq![kv_view(kv)])] + done;
            assert(done.subrange(1, done.len() as int) =~= done_prev);
            assert(singleton_tables(pair_views_of(rem)) + done =~= singleton_tables(
                pair_views_of(old_rem),
            ) + done_prev);
        }
        let wrapped = Value::Table(vec![kv]);
        proof {
            let wv = wrapped->Table_0;
            lemma_pair_views_index(wv, 1);
            assert(pair_views_of(wv) =~= seq![kv_view(wv[0])]);
            assert(wrapped@ == done[0]);
        }
        let ghost old_out = out@;
        match T::from_value(wrapped) {
            Some(c) => {
                out.insert(0, c);
                proof {
                    assert(out@ =~= seq![c] + old_out);
                    assert(out@.subrange(1, out@.len() as int) =~= old_out);
                }
            },
            None => {},
        }
    }
    proof {
        assert(singleton_tables(pair_views_of(rem)).len() == 0);
        assert(singleton_tables(pair_views_of(rem)) + done =~= done);
    }
    out
}

/// Wraps each pair of a borrowed map as a one-entry map and converts the
/// wrappers, dropping what does not convert.
fn convert_singletons_ref<T: FromValue>(m: &Vec<KeyVal>) -> (r: Vec<T>)
    ensures
        seq_lossy_rel::<T>(singleton_tables(pair_views_of(*m)), r@),
{
    proof {
        lemma_pair_views_index(*m, m.len() as int);
    }
    let ghost total = singleton_tables(pair_views_of(*m));
    let mut out: Vec<T> = Vec::new();
    let mut i: usize = m.len();
    while i > 0
        invariant
            i <= m@.len(),
            total == singleton_tables(pair_views_of(*m)),
            total.len() == m@.len(),
            forall|j: int| 0 <= j < m@.len() ==> pair_views_of(*m)[j] == kv_view(m[j]),
            seq_lossy_rel::<T>(total.subrange(i as int, total.len() as int), out@),
        decreases i,
    {
        i = i - 1;
        let ghost done = total.subrange(i as int + 1, total.len() as int);
        let wrapped = Value::Table(vec![m[i].clone()]);
        proof {
            let wv = wrapped->Table_0;
            lemma_pair_views_index(wv, 1);
            assert(pair_views_of(wv) =~= seq![kv_view(wv[0])]);
            assert(wrapped@ == total[i as int]);
        }
        let ghost old_out = out@;
        match T::from_value(wrapped) {
            Some(c) => {
                out.insert(0, c);
                proof {
                    assert(out@ =~= seq![c] + old_out);
                    assert(out@.subrange(1, out@.len() as int) =~= old_out);
                }
            },
            None => {},
        }
        proof {
            let now = total.subrange(i as int, total.len() as int);
            assert(now[0] == total[i as int]);
            assert(now.subrange(1, now.len() as int) =~= done);
        }
    }
    proof {
        assert(total.subrange(0, total.len() as int) =~= total);
    }
    out
}

impl FromValue for Vec<u8> {
    open spec fn convertible(v: Val) -> bool {
        v is Bytes || v is Array
    }

    open spec fn converted(v: Val, r: Self) -> bool {
        match v {
            Val::Bytes(b) => r@ == b,
            Val::Array(vs) => r@ == bytes_lossy(vs),
            _ => false,
        }
    }

    fn from_value(v: Value) -> (r: Option<Self>) {
        match v {
            Value::ByteString(bs) => Some(bs),
            Value::Array(x) => Some(bytes_lossy_of(&x)),
            _ => None,
        }
    }

    fn from_ref(v: &Value) -> (r: Option<Self>) {
        match v {
            Value::ByteString(bs) => v.get_bytes(),
            Value::Array(x) => Some(bytes_lossy_of(x)),
            _ => None,
        }
    }
}

/// The byte-buffer slow path: each array element that is an integer in
/// 0..=255 becomes one byte, anything else is dropped.
fn bytes_lossy_of(x: &Vec<Value>) -> (r: Vec<u8>)
        ensures
            r@ == bytes_lossy(views_of(*x)),
    {
        proof {
            lemma_elem_views_index(*x, x.len() as int);
        }
        let ghost total = views_of(*x);
        let mut out: Vec<u8> = Vec::new();
        let mut i: usize = x.len();
        while i > 0
            invariant
                i <= x@.len(),
                total == views_of(*x),
                total.len() == x@.len(),
                forall|j: int| 0 <= j < x@.len() ==> total[j] == value_view(x[j]),
                out@ == bytes_lossy(total.subrange(i as int, total.len() as int)),
            decreases i,
        {
            i = i - 1;
            let ghost done = total.subrange(i as int + 1, total.len() as int);
            let ghost old_out = out@;
            match u8_from_val(&x[i]) {
                Some(b) => {
                    out.insert(0, b);
                    proof {
                        assert(out@ =~= seq![b] + old_out);
                    }
                },
                None => {},
            }
            proof {
                let now = total.subrange(i as int, total.len() as int);
                assert(now[0] == total[i as int]);
                assert(now.subrange(1, now.len() as int) =~= done);
            }
        }
        proof {
            assert(total.subrange(0, total.len() as int) =~= total);
        }
        out
}

impl<T: FromValue> FromValue for Vec<T> {
    open spec fn convertible(v: Val) -> bool {
        v is Array || v is Table
    }

    open spec fn converted(v: Val, r: Self) -> bool {
        match v {
            Val::Array(vs) => seq_lossy_rel::<T>(vs, r@),
            Val::Table(ps) => seq_lossy_rel::<T>(singleton_tables(ps), r@),
            _ => false,
        }
    }

    fn from_value(v: Value) -> (r: Option<Self>) {
        match v {
            Value::Array(x) => Some(convert_elems_owned(x)),
            Value::Table(m) => Some(convert_singletons_owned(m)),
            _ => None,
        }
    }

    fn from_ref(v: &Value) -> (r: Option<Self>) {
        match v {
            Value::Array(x) => Some(convert_elems_ref(x)),
            Value::Table(m) => Some(convert_singletons_ref(m)),
            _ => None,
        }
    }
}

impl<K: FromValue, V: FromValue> FromValue for (K, V) {
    open spec fn convertible(v: Val) -> bool {
        match v {
            Val::Table(ps) => ps.len() == 1 && K::convertible(ps[0].0) && V::convertible(ps[0].1),
            _ => false,
        }
    }

    open spec fn converted(v: Val, r: Self) -> bool {
        match v {
            Val::Table(ps) => ps.len() == 1 && K::converted(ps[0].0, r.0) && V::converted(
                ps[0].1,
                r.1,
            ),
            _ => false,
        }
    }

    fn from_value(v: Value) -> (r: Option<Self>) {
        match v {
            Value::Table(m) => {
                proof {
                    lemma_pair_views_index(m, m.len() as int);
                }
                let mut m = m;
                if m.len() != 1 {
                    return None;
                }
                let kv = m.remove(0);
                match K::from_value(kv.key) {
                    Some(k) => match V::from_value(kv.val) {
                        Some(w) => Some((k, w)),
                        None => None,
                    },
                    None => None,
                }
            },
            _ => None,
        }
    }

    fn from_ref(v: &Value) -> (r: Option<Self>) {
        match v {
            Value::Table(m) => {
                proof {
                    lemma_pair_views_index(*m, m.len() as int);
                }
                if m.len() != 1 {
                    return None;
                }
                match K::from_ref(&m[0].key) {
                    Some(k) => match V::from_ref(&m[0].val) {
                        Some(w) => Some((k, w)),
                        None => None,
                    },
                    None => None,
                }
            },
            _ => None,
        }
    }
}

/// Whether the pair `(k, v)` is the converted image of some accepted
/// pair of `ps`: the per-entry meaning of a converted map. A pair is
/// accepted when both of its sides convert, so an entry never images a
/// dropped pair.
pub open spec fn entry_converted<K: FromValue, V: FromValue>(
    ps: Seq<(Val, Val)>,
    k: K,
    v: V,
) -> bool {
    exists|j: int|
        #![auto]
        {
            &&& 0 <= j < ps.len()
            &&& K::convertible(ps[j].0)
            &&& V::convertible(ps[j].1)
            &&& K::converted(ps[j].0, k)
            &&& V::converted(ps[j].1, v)
        }
}

/// Whether the key-conversion relation determines the key: one source
/// tree converts to at most one key value. This holds where the key type
/// is an integer, whose value its abstraction fixes completely; a key
/// type whose values carry more than their abstraction (a string, a
/// nested container) relates one tree to many equal-looking values, and
/// the last-pair clause below says nothing for it.
pub open spec fn converted_determines_key<K: FromValue>() -> bool {
    forall|v: Val, k1: K, k2: K|
        #![trigger K::converted(v, k1), K::converted(v, k2)]
        K::converted(v, k1) && K::converted(v, k2) ==> k1 == k2
}

/// Whether every accepted pair among the first `hi` pairs of `ps` has
/// left a key in `m`: the completeness half of a map conversion. A pair
/// is accepted when both of its sides convert.
pub open spec fn keys_complete_upto<K: FromValue, V: FromValue>(
    ps: Seq<(Val, Val)>,
    hi: int,
    m: Map<K, V>,
) -> bool {
    forall|j: int|
        #![trigger ps[j]]
        0 <= j < hi && K::convertible(ps[j].0) && V::convertible(ps[j].1) ==> exists|k: K|
            #![auto]
            m.contains_key(k) && K::converted(ps[j].0, k)
}

/// Whether `(k, v)` comes from the last accepted pair among the first
/// `hi` pairs of `ps` whose key converts to `k`: what a map keyed on
/// converted keys holds after inserting those pairs in order, a later
/// duplicate displacing an earlier one.
pub open spec fn entry_last_converted_upto<K: FromValue, V: FromValue>(
    ps: Seq<(Val, Val)>,
    hi: int,
    k: K,
    v: V,
) -> bool {
    exists|j: int|
        #![auto]
        {
            &&& 0 <= j < hi
            &&& K::convertible(ps[j].0)
            &&& V::convertible(ps[j].1)
            &&& K::converted(ps[j].0, k)
            &&& V::converted(ps[j].1, v)
            &&& forall|j2: int|
                j < j2 < hi ==> !(K::convertible(#[trigger] ps[j2].0) && K::converted(ps[j2].0, k)
                    && V::convertible(ps[j2].1))
        }
}

/// One inserting step of a map conversion keeps all three content
/// clauses: the new entry comes from the accepted pair at `idx`, every
/// earlier key stays with its facts, and under a determining key
/// relation the last-pair clause extends past `idx`.
proof fn lemma_map_conversion_insert<K: FromValue, V: FromValue>(
    ps: Seq<(Val, Val)>,
    idx: int,
    m0: Map<K, V>,
    m1: Map<K, V>,
    k0: K,
    w0: V,
)
    requires
        0 <= idx < ps.len(),
        K::convertible(ps[idx].0),
        V::convertible(ps[idx].1),
        K::converted(ps[idx].0, k0),
        V::converted(ps[idx].1, w0),
        m1 == m0.insert(k0, w0),
        keys_complete_upto::<K, V>(ps, idx, m0),
        forall|k: K| #[trigger] m0.contains_key(k) ==> entry_converted::<K, V>(ps, k, m0[k]),
        converted_determines_key::<K>() ==> forall|k: K| #[trigger]
            m0.contains_key(k) ==> entry_last_converted_upto::<K, V>(ps, idx, k, m0[k]),
    ensures
        keys_complete_upto::<K, V>(ps, idx + 1, m1),
        forall|k: K| #[trigger] m1.contains_key(k) ==> entry_converted::<K, V>(ps, k, m1[k]),
        converted_determines_key::<K>() ==> forall|k: K| #[trigger]
            m1.contains_key(k) ==> entry_last_converted_upto::<K, V>(ps, idx + 1, k, m1[k]),
{
    assert forall|j: int|
        0 <= j < idx + 1 && K::convertible(#[trigger] ps[j].0) && V::convertible(ps[j].1) implies exists|
        k: K,
    |
        #![auto]
        m1.contains_key(k) && K::converted(ps[j].0, k) by {
        if j < idx {
            let kw = choose|k: K| #![auto] m0.contains_key(k) && K::converted(ps[j].0, k);
            assert(m1.contains_key(kw) && K::converted(ps[j].0, kw));
        } else {
            assert(m1.contains_key(k0) && K::converted(ps[idx].0, k0));
        }
    }
    assert forall|k: K| #[trigger] m1.contains_key(k) implies entry_converted::<K, V>(
        ps,
        k,
        m1[k],
    ) by {
        if k == k0 {
            assert(0 <= idx < ps.len() && K::convertible(ps[idx].0) && V::convertible(ps[idx].1)
                && K::converted(ps[idx].0, k0) && V::converted(ps[idx].1, w0));
        } else {
            assert(m0.contains_key(k) && m1[k] == m0[k]);
        }
    }
    if converted_determines_key::<K>() {
        assert forall|k: K| #[trigger] m1.contains_key(k) implies entry_last_converted_upto::<
            K,
            V,
        >(ps, idx + 1, k, m1[k]) by {
            if k == k0 {
                assert({
                    &&& 0 <= idx < idx + 1
                    &&& K::convertible(ps[idx].0)
                    &&& V::convertible(ps[idx].1)
                    &&& K::converted(ps[idx].0, k0)
                    &&& V::converted(ps[idx].1, m1[k0])
                    &&& forall|j2: int|
                        idx < j2 < idx + 1 ==> !(K::convertible(#[trigger] ps[j2].0)
                            && K::converted(ps[j2].0, k0) && V::convertible(ps[j2].1))
                });
            } else {
                assert(m0.contains_key(k) && m1[k] == m0[k]);
                let jw = choose|j: int|
                    #![auto]
                    {
                        &&& 0 <= j < idx
                        &&& K::convertible(ps[j].0)
                        &&& V::convertible(ps[j].1)
                        &&& K::converted(ps[j].0, k)
                        &&& V::converted(ps[j].1, m0[k])
                        &&& forall|j2: int|
                            j < j2 < idx ==> !(K::convertible(#[trigger] ps[j2].0)
                                && K::converted(ps[j2].0, k) && V::convertible(ps[j2].1))
                    };
                assert forall|j2: int| jw < j2 < idx + 1 implies !(K::convertible(
                    #[trigger] ps[j2].0,
                ) && K::converted(ps[j2].0, k) && V::convertible(ps[j2].1)) by {
                    if j2 == idx {
                        if K::converted(ps[idx].0, k) {
                            assert(k == k0);
                        }
                    }
                }
                assert({
                    &&& 0 <= jw < idx + 1
                    &&& K::convertible(ps[jw].0)
                    &&& V::convertible(ps[jw].1)
                    &&& K::converted(ps[jw].0, k)
                    &&& V::converted(ps[jw].1, m1[k])
                    &&& forall|j2: int|
                        jw < j2 < idx + 1 ==> !(K::convertible(#[trigger] ps[j2].0)
                            && K::converted(ps[j2].0, k) && V::convertible(ps[j2].1))
                });
            }
        }
    }
}

/// One skipping step of a map conversion keeps all three content
/// clauses: a pair one of whose sides does not convert leaves the map,
/// and every clause about it, unchanged.
proof fn lemma_map_conversion_skip<K: FromValue, V: FromValue>(
    ps: Seq<(Val, Val)>,
    idx: int,
    m: Map<K, V>,
)
    requires
        0 <= idx < ps.len(),
        !(K::convertible(ps[idx].0) && V::convertible(ps[idx].1)),
        keys_complete_upto::<K, V>(ps, idx, m),
        converted_determines_key::<K>() ==> forall|k: K| #[trigger]
            m.contains_key(k) ==> entry_last_converted_upto::<K, V>(ps, idx, k, m[k]),
    ensures
        keys_complete_upto::<K, V>(ps, idx + 1, m),
        converted_determines_key::<K>() ==> forall|k: K| #[trigger]
            m.contains_key(k) ==> entry_last_converted_upto::<K, V>(ps, idx + 1, k, m[k]),
{
    assert forall|j: int|
        0 <= j < idx + 1 && K::convertible(#[trigger] ps[j].0) && V::convertible(ps[j].1) implies exists|
        k: K,
    |
        #![auto]
        m.contains_key(k) && K::converted(ps[j].0, k) by {
        assert(j != idx);
        let kw = choose|k: K| #![auto] m.contains_key(k) && K::converted(ps[j].0, k);
        assert(m.contains_key(kw) && K::converted(ps[j].0, kw));
    }
    if converted_determines_key::<K>() {
        assert forall|k: K| #[trigger] m.contains_key(k) implies entry_last_converted_upto::<
            K,
            V,
        >(ps, idx + 1, k, m[k]) by {
            let jw = choose|j: int|
                #![auto]
                {
                    &&& 0 <= j < idx
                    &&& K::convertible(ps[j].0)
                    &&& V::convertible(ps[j].1)
                    &&& K::converted(ps[j].0, k)
                    &&& V::converted(ps[j].1, m[k])
                    &&& forall|j2: int|
                        j < j2 < idx ==> !(K::convertible(#[trigger] ps[j2].0) && K::converted(
                            ps[j2].0,
                            k,
                        ) && V::convertible(ps[j2].1))
                };
            assert forall|j2: int| jw < j2 < idx + 1 implies !(K::convertible(
                #[trigger] ps[j2].0,
            ) && K::converted(ps[j2].0, k) && V::convertible(ps[j2].1)) by {
                if j2 == idx {
                }
            }
            assert({
                &&& 0 <= jw < idx + 1
                &&& K::convertible(ps[jw].0)
                &&& V::convertible(ps[jw].1)
                &&& K::converted(ps[jw].0, k)
                &&& V::converted(ps[jw].1, m[k])
                &&& forall|j2: int|
                    jw < j2 < idx + 1 ==> !(K::convertible(#[trigger] ps[j2].0) && K::converted(
                        ps[j2].0,
                        k,
                    ) && V::convertible(ps[j2].1))
            });
        }
    }
}

impl<
    K: FromValue + Eq + core::hash::Hash,
    V: FromValue,
    S: core::hash::BuildHasher + Default,
> FromValue for std::collections::HashMap<K, V, S> {
    open spec fn convertible(v: Val) -> bool {
        v is Table
    }

    /// Entries are converted independently and inserted in pair order;
    /// what does not convert is dropped, and a duplicate key keeps the
    /// last converted entry. The hash map gives its contents no order, so
    /// the relation says: every entry is the converted image of a source
    /// pair, every accepted pair has left a key, and — where the key
    /// relation determines the key — each entry holds the value of the
    /// last accepted pair for its key.
    open spec fn converted(v: Val, r: Self) -> bool {
        vstd::std_specs::hash::obeys_key_model::<K>()
            && vstd::std_specs::hash::builds_valid_hashers::<S>() ==> {
            &&& r@.dom().finite()
            &&& r@.len() <= table_pairs(v).len()
            &&& forall|k: K| #[trigger] r@.contains_key(k) ==> entry_converted::<K, V>(
                table_pairs(v),
                k,
                r@[k],
            )
            &&& keys_complete_upto::<K, V>(table_pairs(v), table_pairs(v).len() as int, r@)
            &&& (converted_determines_key::<K>() ==> forall|k: K| #[trigger]
                r@.contains_key(k) ==> entry_last_converted_upto::<K, V>(
                    table_pairs(v),
                    table_pairs(v).len() as int,
                    k,
                    r@[k],
                ))
        }
    }

    fn from_value(v: Value) -> (r: Option<Self>) {
        broadcast use vstd::std_specs::hash::group_hash_axioms;
        broadcast use vstd::set::group_set_axioms;

        match v {
            Value::Table(m) => {
                proof {
                    lemma_pair_views_index(m, m.len() as int);
                }
                let ghost ps0 = pair_views_of(m);
                let ghost n0 = m@.len();
                let mut m = m;
                let mut out: std::collections::HashMap<K, V, S> = std::collections::HashMap::<
                    K,
                    V,
                    S,
                >::default();
                let ghost cond = vstd::std_specs::hash::obeys_key_model::<K>()
                    && vstd::std_specs::hash::builds_valid_hashers::<S>();
                let ghost mut done: int = 0;
                while m.len() > 0
                    invariant
                        cond == (vstd::std_specs::hash::obeys_key_model::<K>()
                            && vstd::std_specs::hash::builds_valid_hashers::<S>()),
                        ps0.len() == n0,
                        done + m@.len() == n0,
                        0 <= done,
                        forall|j: int|
                            0 <= j < m@.len() ==> kv_view(#[trigger] m@[j]) == ps0[done + j],
                        cond ==> out@.dom().finite() && out@.len() + m@.len() <= n0,
                        cond ==> forall|k: K| #[trigger] out@.contains_key(k)
                            ==> entry_converted::<K, V>(ps0, k, out@[k]),
                        cond ==> keys_complete_upto::<K, V>(ps0, done, out@),
                        cond ==> (converted_determines_key::<K>() ==> forall|k: K| #[trigger]
                            out@.contains_key(k) ==> entry_last_converted_upto::<K, V>(
                                ps0,
                                done,
                                k,
                                out@[k],
                            )),
                    decreases m.len(),
                {
                    broadcast use vstd::std_specs::hash::group_hash_axioms;
                    broadcast use vstd::set::group_set_axioms;

                    let ghost idx = done;
                    let ghost m_old = m@;
                    let kv = m.remove(0);
                    proof {
                        assert(kv_view(kv) == ps0[idx]);
                        assert forall|j: int| 0 <= j < m@.len() implies kv_view(
                            #[trigger] m@[j],
                        ) == ps0[idx + 1 + j] by {
                            assert(m@[j] == m_old[j + 1]);
                        }
                        done = idx + 1;
                    }
                    match K::from_value(kv.key) {
                        Some(k) => match V::from_value(kv.val) {
                            Some(w) => {
                                let ghost out_old = out@;
                                out.insert(k, w);
                                proof {
                                    if cond {
                                        assert(K::converted(ps0[idx].0, k));
                                        assert(V::converted(ps0[idx].1, w));
                                        lemma_map_conversion_insert::<K, V>(
                                            ps0,
                                            idx,
                                            out_old,
                                            out@,
                                            k,
                                            w,
                                        );
                                    }
                                }
                            },
                            None => {
                                proof {
                                    if cond {
                                        assert(!V::convertible(ps0[idx].1));
                                        lemma_map_conversion_skip::<K, V>(ps0, idx, out@);
                                    }
                                }
                            },
                        },
                        None => {
                            proof {
                                if cond {
                                    assert(!K::convertible(ps0[idx].0));
                                    lemma_map_conversion_skip::<K, V>(ps0, idx, out@);
                                }
                            }
                        },
                    }
                }
                Some(out)
            },
            _ => None,
        }
    }

    fn from_ref(v: &Value) -> (r: Option<Self>) {
        broadcast use vstd::std_specs::hash::group_hash_axioms;
        broadcast use vstd::set::group_set_axioms;

        match v {
            Value::Table(m) => {
                proof {
                    lemma_pair_views_index(*m, m.len() as int);
                }
                let mut out: std::collections::HashMap<K, V, S> = std::collections::HashMap::<
                    K,
                    V,
                    S,
                >::default();
                let ghost cond = vstd::std_specs::hash::obeys_key_model::<K>()
                    && vstd::std_specs::hash::builds_valid_hashers::<S>();
                let ghost ps0 = pair_views_of(*m);
                let mut i: usize = 0;
                while i < m.len()
                    invariant
                        i <= m@.len(),
                        cond == (vstd::std_specs::hash::obeys_key_model::<K>()
                            && vstd::std_specs::hash::builds_valid_hashers::<S>()),
                        ps0 == pair_views_of(*m),
                        ps0.len() == m@.len(),
                        forall|j: int|
                            0 <= j < m@.len() ==> kv_view(#[trigger] m@[j]) == ps0[j],
                        cond ==> out@.dom().finite() && out@.len() <= i,
                        cond ==> forall|k: K| #[trigger] out@.contains_key(k)
                            ==> entry_converted::<K, V>(ps0, k, out@[k]),
                        cond ==> keys_complete_upto::<K, V>(ps0, i as int, out@),
                        cond ==> (converted_determines_key::<K>() ==> forall|k: K| #[trigger]
                            out@.contains_key(k) ==> entry_last_converted_upto::<K, V>(
                                ps0,
                                i as int,
                                k,
                                out@[k],
                            )),
                    decreases m@.len() - i,
                {
                    broadcast use vstd::std_specs::hash::group_hash_axioms;
                    broadcast use vstd::set::group_set_axioms;

                    match K::from_ref(&m[i].key) {
                        Some(k) => match V::from_ref(&m[i].val) {
                            Some(w) => {
                                let ghost out_old = out@;
                                out.insert(k, w);
                                proof {
                                    if cond {
                                        assert(K::converted(ps0[i as int].0, k));
                                        assert(V::converted(ps0[i as int].1, w));
                                        lemma_map_conversion_insert::<K, V>(
                                            ps0,
                                            i as int,
                                            out_old,
                                            out@,
                                            k,
                                            w,
                                        );
                                    }
                                }
                            },
                            None => {
                                proof {
                                    if cond {
                                        assert(!V::convertible(ps0[i as int].1));
                                        lemma_map_conversion_skip::<K, V>(ps0, i as int, out@);
                                    }
                                }
                            },
                        },
                        None => {
                            proof {
                                if cond {
                                    assert(!K::convertible(ps0[i as int].0));
                                    lemma_map_conversion_skip::<K, V>(ps0, i as int, out@);
                                }
                            }
                        },
                    }
                    i = i + 1;
                }
                Some(out)
            },
            _ => None,
        }
    }
}

impl<K: FromValue + Ord, V: FromValue> FromValue for std::collections::BTreeMap<K, V> {
    open spec fn convertible(v: Val) -> bool {
        v is Table
    }

    /// As for the hash map: entries convert independently in pair order,
    /// failures are dropped, a duplicate key keeps the last converted
    /// entry; every entry is the converted image of a source pair, every
    /// accepted pair has left a key, and — where the key relation
    /// determines the key — each entry holds the value of the last
    /// accepted pair for its key.
    open spec fn converted(v: Val, r: Self) -> bool {
        vstd::std_specs::btree::key_obeys_cmp_spec::<K>() ==> {
            &&& r@.dom().finite()
            &&& r@.len() <= table_pairs(v).len()
            &&& forall|k: K| #[trigger] r@.contains_key(k) ==> entry_converted::<K, V>(
                table_pairs(v),
                k,
                r@[k],
            )
            &&& keys_complete_upto::<K, V>(table_pairs(v), table_pairs(v).len() as int, r@)
            &&& (converted_determines_key::<K>() ==> forall|k: K| #[trigger]
                r@.contains_key(k) ==> entry_last_converted_upto::<K, V>(
                    table_pairs(v),
                    table_pairs(v).len() as int,
                    k,
                    r@[k],
                ))
        }
    }

    fn from_value(v: Value) -> (r: Option<Self>) {
        broadcast use vstd::std_specs::btree::group_btree_axioms;
        broadcast use vstd::set::group_set_axioms;

        match v {
            Value::Table(m) => {
                proof {
                    lemma_pair_views_index(m, m.len() as int);
                }
                let ghost ps0 = pair_views_of(m);
                let ghost n0 = m@.len();
                let mut m = m;
                let mut out: std::collections::BTreeMap<K, V> = std::collections::BTreeMap::new();
                let ghost cond = vstd::std_specs::btree::key_obeys_cmp_spec::<K>();
                let ghost mut done: int = 0;
                while m.len() > 0
                    invariant
                        cond == vstd::std_specs::btree::key_obeys_cmp_spec::<K>(),
                        ps0.len() == n0,
                        done + m@.len() == n0,
                        0 <= done,
                        forall|j: int|
                            0 <= j < m@.len() ==> kv_view(#[trigger] m@[j]) == ps0[done + j],
                        cond ==> out@.dom().finite() && out@.len() + m@.len() <= n0,
                        cond ==> forall|k: K| #[trigger] out@.contains_key(k)
                            ==> entry_converted::<K, V>(ps0, k, out@[k]),
                        cond ==> keys_complete_upto::<K, V>(ps0, done, out@),
                        cond ==> (converted_determines_key::<K>() ==> forall|k: K| #[trigger]
                            out@.contains_key(k) ==> entry_last_converted_upto::<K, V>(
                                ps0,
                                done,
                                k,
                                out@[k],
                            )),
                    decreases m.len(),
                {
                    broadcast use vstd::std_specs::btree::group_btree_axioms;
                    broadcast use vstd::set::group_set_axioms;

                    let ghost idx = done;
                    let ghost m_old = m@;
                    let kv = m.remove(0);
                    proof {
                        assert(kv_view(kv) == ps0[idx]);
                        assert forall|j: int| 0 <= j < m@.len() implies kv_view(
                            #[trigger] m@[j],
                        ) == ps0[idx + 1 + j] by {
                            assert(m@[j] == m_old[j + 1]);
                        }
                        done = idx + 1;
                    }
                    match K::from_value(kv.key) {
                        Some(k) => match V::from_value(kv.val) {
                            Some(w) => {
                                let ghost out_old = out@;
                                out.insert(k, w);
                                proof {
                                    if cond {
                                        assert(K::converted(ps0[idx].0, k));
                                        assert(V::converted(ps0[idx].1, w));
                                        lemma_map_conversion_insert::<K, V>(
                                            ps0,
                                            idx,
                                            out_old,
                                            out@,
                                            k,
                                            w,
                                        );
                                    }
                                }
                            },
                            None => {
                                proof {
                                    if cond {
                                        assert(!V::convertible(ps0[idx].1));
                                        lemma_map_conversion_skip::<K, V>(ps0, idx, out@);
                                    }
                                }
                            },
                        },
                        None => {
                            proof {
                                if cond {
                                    assert(!K::convertible(ps0[idx].0));
                                    lemma_map_conversion_skip::<K, V>(ps0, idx, out@);
                                }
                            }
                        },
                    }
                }
                Some(out)
            },
            _ => None,
        }
    }

    fn from_ref(v: &Value) -> (r: Option<Self>) {
        broadcast use vstd::std_specs::btree::group_btree_axioms;
        broadcast use vstd::set::group_set_axioms;

        match v {
            Value::Table(m) => {
                proof {
                    lemma_pair_views_index(*m, m.len() as int);
                }
                let mut out: std::collections::BTreeMap<K, V> = std::collections::BTreeMap::new();
                let ghost cond = vstd::std_specs::btree::key_obeys_cmp_spec::<K>();
                let ghost ps0 = pair_views_of(*m);
                let mut i: usize = 0;
                while i < m.len()
                    invariant
                        i <= m@.len(),
                        cond == vstd::std_specs::btree::key_obeys_cmp_spec::<K>(),
                        ps0 == pair_views_of(*m),
                        ps0.len() == m@.len(),
                        forall|j: int|
                            0 <= j < m@.len() ==> kv_view(#[trigger] m@[j]) == ps0[j],
                        cond ==> out@.dom().finite() && out@.len() <= i,
                        cond ==> forall|k: K| #[trigger] out@.contains_key(k)
                            ==> entry_converted::<K, V>(ps0, k, out@[k]),
                        cond ==> keys_complete_upto::<K, V>(ps0, i as int, out@),
                        cond ==> (converted_determines_key::<K>() ==> forall|k: K| #[trigger]
                            out@.contains_key(k) ==> entry_last_converted_upto::<K, V>(
                                ps0,
                                i as int,
                                k,
                                out@[k],
                            )),
                    decreases m@.len() - i,
                {
                    broadcast use vstd::std_specs::btree::group_btree_axioms;
                    broadcast use vstd::set::group_set_axioms;

                    match K::from_ref(&m[i].key) {
                        Some(k) => match V::from_ref(&m[i].val) {
                            Some(w) => {
                                let ghost out_old = out@;
                                out.insert(k, w);
                                proof {
                                    if cond {
                                        assert(K::converted(ps0[i as int].0, k));
                                        assert(V::converted(ps0[i as int].1, w));
                                        lemma_map_conversion_insert::<K, V>(
                                            ps0,
                                            i as int,
                                            out_old,
                                            out@,
                                            k,
                                            w,
                                        );
                                    }
                                }
                            },
                            None => {
                                proof {
                                    if cond {
                                        assert(!V::convertible(ps0[i as int].1));
                                        lemma_map_conversion_skip::<K, V>(ps0, i as int, out@);
                                    }
                                }
                            },
                        },
                        None => {
                            proof {
                                if cond {
                                    assert(!K::convertible(ps0[i as int].0));
                                    lemma_map_conversion_skip::<K, V>(ps0, i as int, out@);
                                }
                            }
                        },
                    }
                    i = i + 1;
                }
                Some(out)
            },
            _ => None,
        }
    }
}

/// Turning a [`Value`] into a typed result, by value or by reference: the
/// method form of the conversion capability.
pub trait ValueInto<T: FromValue>: View<V = Val> + Sized {
    /// Converts by consuming this value.
    fn into_type(self) -> (r: Option<T>)
        ensures
            r is Some <==> T::convertible(self@),
            r matches Some(x) ==> T::converted(self@, x),
    ;

    /// Converts a copy of this value.
    fn to_type(&self) -> (r: Option<T>)
        ensures
            r is Some <==> T::convertible(self@),
            r matches Some(x) ==> T::converted(self@, x),
    ;
}

impl<U: FromValue> ValueInto<U> for Value {
    fn into_type(self) -> (r: Option<U>) {
        U::from_value(self)
    }

    fn to_type(&self) -> (r: Option<U>) {
        U::from_value(self.clone())
    }
}


/// Relies on `HashMap::iter`: visits every entry exactly once, in an
/// unspecified order. Exactly once gives the clauses: one pair per entry,
/// each pair a genuine entry, and no key repeated.
#[verifier::external_body]
fn hash_map_pairs<'a, K, V, S>(m: &'a std::collections::HashMap<K, V, S>) -> (r: Vec<
    (&'a K, &'a V),
>)
    ensures
        vstd::std_specs::hash::obeys_key_model::<K>()
            && vstd::std_specs::hash::builds_valid_hashers::<S>() ==> r@.len() == m@.len() && (
        forall|i: int|
            0 <= i < r@.len() ==> m@.contains_key(*#[trigger] r@[i].0) && m@[*r@[i].0]
                == *r@[i].1) && (forall|i: int, j: int|
            #![trigger r@[i].0, r@[j].0]
            0 <= i < j < r@.len() ==> *r@[i].0 != *r@[j].0),
{
    let mut out = Vec::new();
    for entry in m.iter() {
        out.push(entry);
    }
    out
}

/// Relies on `HashMap::into_iter`: yields every entry exactly once, in an
/// unspecified order. Exactly once gives the clauses: one pair per entry,
/// each pair a genuine entry, and no key repeated.
#[verifier::external_body]
fn hash_map_into_pairs<K, V, S>(m: std::collections::HashMap<K, V, S>) -> (r: Vec<(K, V)>)
    ensures
        vstd::std_specs::hash::obeys_key_model::<K>()
            && vstd::std_specs::hash::builds_valid_hashers::<S>() ==> r@.len() == m@.len() && (
        forall|i: int|
            0 <= i < r@.len() ==> m@.contains_key(#[trigger] r@[i].0) && m@[r@[i].0]
                == r@[i].1) && (forall|i: int, j: int|
            #![trigger r@[i].0, r@[j].0]
            0 <= i < j < r@.len() ==> r@[i].0 != r@[j].0),
{
    let mut out = Vec::new();
    for entry in m {
        out.push(entry);
    }
    out
}

/// Relies on `BTreeMap::iter`: visits every entry exactly once, in
/// ascending key order. Exactly once gives one pair per genuine entry
/// with no key repeated; the order clause speaks through vstd's
/// `increasing_seq`, its model of an ascending key sequence.
#[verifier::external_body]
fn btree_map_pairs<'a, K, V>(m: &'a std::collections::BTreeMap<K, V>) -> (r: Vec<(&'a K, &'a V)>)
    ensures
        vstd::std_specs::btree::key_obeys_cmp_spec::<K>() ==> r@.len() == m@.len() && (forall|
            i: int,
        |
            0 <= i < r@.len() ==> m@.contains_key(*#[trigger] r@[i].0) && m@[*r@[i].0]
                == *r@[i].1) && (forall|i: int, j: int|
            #![trigger r@[i].0, r@[j].0]
            0 <= i < j < r@.len() ==> *r@[i].0 != *r@[j].0)
            && vstd::std_specs::btree::increasing_seq(
            r@.map_values(|p: (&'a K, &'a V)| *p.0),
        ),
{
    let mut out = Vec::new();
    for entry in m.iter() {
        out.push(entry);
    }
    out
}

/// Relies on `BTreeMap::into_iter`: yields every entry exactly once, in
/// ascending key order. Exactly once gives one pair per genuine entry
/// with no key repeated; the order clause speaks through vstd's
/// `increasing_seq`, its model of an ascending key sequence.
#[verifier::external_body]
fn btree_map_into_pairs<K, V>(m: std::collections::BTreeMap<K, V>) -> (r: Vec<(K, V)>)
    ensures
        vstd::std_specs::btree::key_obeys_cmp_spec::<K>() ==> r@.len() == m@.len() && (forall|
            i: int,
        |
            0 <= i < r@.len() ==> m@.contains_key(#[trigger] r@[i].0) && m@[r@[i].0]
                == r@[i].1) && (forall|i: int, j: int|
            #![trigger r@[i].0, r@[j].0]
            0 <= i < j < r@.len() ==> r@[i].0 != r@[j].0)
            && vstd::std_specs::btree::increasing_seq(r@.map_values(|p: (K, V)| p.0)),
{
    let mut out = Vec::new();
    for entry in m {
        out.push(entry);
    }
    out
}

/// A capability to render a native value as a dynamic [`Value`] tree: the
/// reverse direction of the conversion layer.
pub trait ToValue {
    /// How a produced tree stands for this value.
    spec fn to_val_rel(&self, out: Val) -> bool;

    /// Builds the tree.
    fn to_value(&self) -> (r: Value)
        ensures
            self.to_val_rel(r@),
    ;
}

/// Whether `ps` renders the entries of `m` enumerated by `keys`: one
/// pair per key, no key repeated, every key an entry of `m`, and each
/// pair standing for its key and that key's value. With the counts equal
/// and the keys distinct, every entry of `m` is rendered exactly once.
pub open spec fn pairs_render_by<K: ToValue, V: ToValue>(
    m: Map<K, V>,
    ps: Seq<(Val, Val)>,
    keys: Seq<K>,
) -> bool {
    &&& ps.len() == m.len()
    &&& keys.len() == ps.len()
    &&& keys.no_duplicates()
    &&& forall|j: int| 0 <= j < ps.len() ==> m.contains_key(#[trigger] keys[j])
    &&& forall|j: int|
        #![trigger ps[j]]
        0 <= j < ps.len() ==> keys[j].to_val_rel(ps[j].0) && m[keys[j]].to_val_rel(ps[j].1)
}

/// Every entry of `m` is rendered exactly once somewhere in `ps`: how a
/// produced map tree stands for a native map whose iteration order is
/// unspecified.
pub open spec fn pairs_render<K: ToValue, V: ToValue>(m: Map<K, V>, ps: Seq<(Val, Val)>) -> bool {
    exists|keys: Seq<K>| #[trigger] pairs_render_by(m, ps, keys)
}

/// Every entry of `m` is rendered exactly once, in ascending key order:
/// how a produced map tree stands for an ordered source container, whose
/// rendering is deterministic.
pub open spec fn pairs_render_ordered<K: ToValue, V: ToValue>(
    m: Map<K, V>,
    ps: Seq<(Val, Val)>,
) -> bool {
    exists|keys: Seq<K>|
        #[trigger] pairs_render_by(m, ps, keys) && vstd::std_specs::btree::increasing_seq(keys)
}

impl ToValue for Value {
    open spec fn to_val_rel(&self, out: Val) -> bool {
        out == self@
    }

    fn to_value(&self) -> (r: Value) {
        self.clone()
    }
}

impl ToValue for u32 {
    open spec fn to_val_rel(&self, out: Val) -> bool {
        out == Val::Unsigned(*self as u64)
    }

    fn to_value(&self) -> (r: Value) {
        Value::Unsigned(*self as u64)
    }
}

impl ToValue for u64 {
    open spec fn to_val_rel(&self, out: Val) -> bool {
        out == Val::Unsigned(*self)
    }

    fn to_value(&self) -> (r: Value) {
        Value::Unsigned(*self)
    }
}

impl ToValue for i8 {
    open spec fn to_val_rel(&self, out: Val) -> bool {
        if *self < 0 {
            out == Val::Negative(*self as i64)
        } else {
            out == Val::Unsigned(*self as u64)
        }
    }

    fn to_value(&self) -> (r: Value) {
        if *self < 0 {
            Value::Negative(*self as i64)
        } else {
            Value::Unsigned(*self as u64)
        }
    }
}

impl ToValue for i32 {
    open spec fn to_val_rel(&self, out: Val) -> bool {
        if *self < 0 {
            out == Val::Negative(*self as i64)
        } else {
            out == Val::Unsigned(*self as u64)
        }
    }

    fn to_value(&self) -> (r: Value) {
        if *self < 0 {
            Value::Negative(*self as i64)
        } else {
            Value::Unsigned(*self as u64)
        }
    }
}

impl ToValue for i64 {
    open spec fn to_val_rel(&self, out: Val) -> bool {
        if *self < 0 {
            out == Val::Negative(*self)
        } else {
            out == Val::Unsigned(*self as u64)
        }
    }

    fn to_value(&self) -> (r: Value) {
        if *self < 0 {
            Value::Negative(*self)
        } else {
            Value::Unsigned(*self as u64)
        }
    }
}

impl ToValue for Vec<u8> {
    open spec fn to_val_rel(&self, out: Val) -> bool {
        out == Val::Bytes(self@)
    }

    fn to_value(&self) -> (r: Value) {
        Value::ByteString(self.clone())
    }
}

impl ToValue for String {
    open spec fn to_val_rel(&self, out: Val) -> bool {
        out == Val::Text(self@)
    }

    fn to_value(&self) -> (r: Value) {
        Value::Utf8String(self.clone())
    }
}

impl ToValue for str {
    open spec fn to_val_rel(&self, out: Val) -> bool {
        out == Val::Text(self@)
    }

    fn to_value(&self) -> (r: Value) {
        Value::Utf8String(self.to_owned())
    }
}

impl ToValue for &str {
    open spec fn to_val_rel(&self, out: Val) -> bool {
        out == Val::Text(self@)
    }

    fn to_value(&self) -> (r: Value) {
        Value::Utf8String((*self).to_owned())
    }
}

impl ToValue for bool {
    open spec fn to_val_rel(&self, out: Val) -> bool {
        if *self {
            out == Val::Simple(Simple::True)
        } else {
            out == Val::Simple(Simple::False)
        }
    }

    fn to_value(&self) -> (r: Value) {
        if *self {
            Value::Simple(Simple::True)
        } else {
            Value::Simple(Simple::False)
        }
    }
}

impl<T: ToValue> ToValue for Vec<T> {
    open spec fn to_val_rel(&self, out: Val) -> bool {
        match out {
            Val::Array(vs) => vs.len() == self@.len() && (forall|i: int|
                0 <= i < vs.len() ==> #[trigger] self@[i].to_val_rel(vs[i])),
            _ => false,
        }
    }

    fn to_value(&self) -> (r: Value) {
        let mut arr: Vec<Value> = Vec::new();
        let mut i: usize = 0;
        while i < self.len()
            invariant
                i <= self@.len(),
                arr@.len() == i,
                forall|j: int|
                    0 <= j < i ==> #[trigger] self@[j].to_val_rel(value_view(arr[j])),
            decreases self@.len() - i,
        {
            let e = self[i].to_value();
            arr.push(e);
            i = i + 1;
        }
        proof {
            lemma_elem_views_index(arr, arr.len() as int);
            assert(forall|j: int|
                0 <= j < arr@.len() ==> views_of(arr)[j] == value_view(arr[j]));
        }
        Value::Array(arr)
    }
}

impl<K: ToValue, V: ToValue, S> ToValue for std::collections::HashMap<K, V, S> {
    /// The entries are rendered in the hash map's own iteration order,
    /// which is unspecified: the produced map's pair order is
    /// non-deterministic for this source container. Every entry is
    /// rendered exactly once.
    open spec fn to_val_rel(&self, out: Val) -> bool {
        &&& out is Table
        &&& (vstd::std_specs::hash::obeys_key_model::<K>()
            && vstd::std_specs::hash::builds_valid_hashers::<S>() ==> pairs_render(
            self@,
            out->Table_0,
        ))
    }

    fn to_value(&self) -> (r: Value) {
        let ghost cond = vstd::std_specs::hash::obeys_key_model::<K>()
            && vstd::std_specs::hash::builds_valid_hashers::<S>();
        let entries = hash_map_pairs(self);
        let mut pairs: Vec<KeyVal> = Vec::new();
        let mut i: usize = 0;
        while i < entries.len()
            invariant
                i <= entries@.len(),
                pairs@.len() == i,
                cond == (vstd::std_specs::hash::obeys_key_model::<K>()
                    && vstd::std_specs::hash::builds_valid_hashers::<S>()),
                cond ==> entries@.len() == self@.len() && (forall|j: int|
                    0 <= j < entries@.len() ==> self@.contains_key(*#[trigger] entries@[j].0)
                        && self@[*entries@[j].0] == *entries@[j].1) && (forall|j: int, j2: int|
                    #![trigger entries@[j].0, entries@[j2].0]
                    0 <= j < j2 < entries@.len() ==> *entries@[j].0 != *entries@[j2].0),
                cond ==> forall|j: int|
                    #![trigger pairs@[j]]
                    0 <= j < i ==> (*entries@[j].0).to_val_rel(kv_view(pairs@[j]).0) && (
                    *entries@[j].1).to_val_rel(kv_view(pairs@[j]).1),
            decreases entries@.len() - i,
        {
            let kv = KeyVal { key: entries[i].0.to_value(), val: entries[i].1.to_value() };
            let ghost pairs_old = pairs@;
            pairs.push(kv);
            proof {
                if cond {
                    assert((*entries@[i as int].0).to_val_rel(kv_view(pairs@[i as int]).0));
                    assert((*entries@[i as int].1).to_val_rel(kv_view(pairs@[i as int]).1));
                    assert(forall|j: int|
                        0 <= j < pairs_old.len() ==> #[trigger] pairs@[j] == pairs_old[j]);
                }
            }
            i = i + 1;
        }
        proof {
            lemma_pair_views_index(pairs, pairs.len() as int);
            if cond {
                let ps = pair_views_of(pairs);
                let keys = Seq::new(ps.len(), |j: int| *entries@[j].0);
                assert(keys.no_duplicates());
                assert forall|j: int| #![trigger ps[j]] 0 <= j < ps.len() implies (
                keys[j].to_val_rel(ps[j].0) && self@[keys[j]].to_val_rel(ps[j].1)) by {
                    assert(ps[j] == kv_view(pairs@[j]));
                    assert(self@[*entries@[j].0] == *entries@[j].1);
                }
                assert(pairs_render_by(self@, ps, keys));
            }
        }
        Value::Table(pairs)
    }
}

impl<K: ToValue, V: ToValue> ToValue for std::collections::BTreeMap<K, V> {
    /// The entries are rendered in ascending key order, the order this
    /// source container iterates in: every entry exactly once, and the
    /// rendering deterministic.
    open spec fn to_val_rel(&self, out: Val) -> bool {
        &&& out is Table
        &&& (vstd::std_specs::btree::key_obeys_cmp_spec::<K>() ==> pairs_render_ordered(
            self@,
            out->Table_0,
        ))
    }

    fn to_value(&self) -> (r: Value) {
        let ghost cond = vstd::std_specs::btree::key_obeys_cmp_spec::<K>();
        let entries = btree_map_pairs(self);
        let mut pairs: Vec<KeyVal> = Vec::new();
        let mut i: usize = 0;
        while i < entries.len()
            invariant
                i <= entries@.len(),
                pairs@.len() == i,
                cond == vstd::std_specs::btree::key_obeys_cmp_spec::<K>(),
                cond ==> entries@.len() == self@.len() && (forall|j: int|
                    0 <= j < entries@.len() ==> self@.contains_key(*#[trigger] entries@[j].0)
                        && self@[*entries@[j].0] == *entries@[j].1) && (forall|j: int, j2: int|
                    #![trigger entries@[j].0, entries@[j2].0]
                    0 <= j < j2 < entries@.len() ==> *entries@[j].0 != *entries@[j2].0)
                    && vstd::std_specs::btree::increasing_seq(
                    entries@.map_values(|p: (&K, &V)| *p.0),
                ),
                cond ==> forall|j: int|
                    #![trigger pairs@[j]]
                    0 <= j < i ==> (*entries@[j].0).to_val_rel(kv_view(pairs@[j]).0) && (
                    *entries@[j].1).to_val_rel(kv_view(pairs@[j]).1),
            decreases entries@.len() - i,
        {
            let kv = KeyVal { key: entries[i].0.to_value(), val: entries[i].1.to_value() };
            let ghost pairs_old = pairs@;
            pairs.push(kv);
            proof {
                if cond {
                    assert((*entries@[i as int].0).to_val_rel(kv_view(pairs@[i as int]).0));
                    assert((*entries@[i as int].1).to_val_rel(kv_view(pairs@[i as int]).1));
                    assert(forall|j: int|
                        0 <= j < pairs_old.len() ==> #[trigger] pairs@[j] == pairs_old[j]);
                }
            }
            i = i + 1;
        }
        proof {
            lemma_pair_views_index(pairs, pairs.len() as int);
            if cond {
                let ps = pair_views_of(pairs);
                let keys = Seq::new(ps.len(), |j: int| *entries@[j].0);
                assert(keys.no_duplicates());
                assert forall|j: int| #![trigger ps[j]] 0 <= j < ps.len() implies (
                keys[j].to_val_rel(ps[j].0) && self@[keys[j]].to_val_rel(ps[j].1)) by {
                    assert(ps[j] == kv_view(pairs@[j]));
                    assert(self@[*entries@[j].0] == *entries@[j].1);
                }
                assert(pairs_render_by(self@, ps, keys));
                assert(keys =~= entries@.map_values(|p: (&K, &V)| *p.0));
            }
        }
        Value::Table(pairs)
    }
}

impl vstd::std_specs::convert::FromSpecImpl<u32> for Value {
    open spec fn obeys_from_spec() -> bool {
        true
    }

    open spec fn from_spec(i: u32) -> Value {
        Value::Unsigned(i as u64)
    }
}

impl From<u32> for Value {
    fn from(i: u32) -> (r: Value) {
        Value::Unsigned(i as u64)
    }
}

impl vstd::std_specs::convert::FromSpecImpl<u64> for Value {
    open spec fn obeys_from_spec() -> bool {
        true
    }

    open spec fn from_spec(i: u64) -> Value {
        Value::Unsigned(i)
    }
}

impl From<u64> for Value {
    fn from(i: u64) -> (r: Value) {
        Value::Unsigned(i)
    }
}

impl vstd::std_specs::convert::FromSpecImpl<i8> for Value {
    open spec fn obeys_from_spec() -> bool {
        true
    }

    open spec fn from_spec(i: i8) -> Value {
        if i < 0 {
            Value::Negative(i as i64)
        } else {
            Value::Unsigned(i as u64)
        }
    }
}

impl From<i8> for Value {
    fn from(i: i8) -> (r: Value) {
        if i < 0 {
            Value::Negative(i as i64)
        } else {
            Value::Unsigned(i as u64)
        }
    }
}

impl vstd::std_specs::convert::FromSpecImpl<i32> for Value {
    open spec fn obeys_from_spec() -> bool {
        true
    }

    open spec fn from_spec(i: i32) -> Value {
        if i < 0 {
            Value::Negative(i as i64)
        } else {
            Value::Unsigned(i as u64)
        }
    }
}

impl From<i32> for Value {
    fn from(i: i32) -> (r: Value) {
        if i < 0 {
            Value::Negative(i as i64)
        } else {
            Value::Unsigned(i as u64)
        }
    }
}

impl vstd::std_specs::convert::FromSpecImpl<i64> for Value {
    open spec fn obeys_from_spec() -> bool {
        true
    }

    open spec fn from_spec(i: i64) -> Value {
        if i < 0 {
            Value::Negative(i)
        } else {
            Value::Unsigned(i as u64)
        }
    }
}

impl From<i64> for Value {
    fn from(i: i64) -> (r: Value) {
        if i < 0 {
            Value::Negative(i)
        } else {
            Value::Unsigned(i as u64)
        }
    }
}

impl vstd::std_specs::convert::FromSpecImpl<Vec<u8>> for Value {
    open spec fn obeys_from_spec() -> bool {
        true
    }

    open spec fn from_spec(v: Vec<u8>) -> Value {
        Value::ByteString(v)
    }
}

impl From<Vec<u8>> for Value {
    fn from(v: Vec<u8>) -> (r: Value) {
        Value::ByteString(v)
    }
}

impl vstd::std_specs::convert::FromSpecImpl<String> for Value {
    open spec fn obeys_from_spec() -> bool {
        true
    }

    open spec fn from_spec(s: String) -> Value {
        Value::Utf8String(s)
    }
}

impl From<String> for Value {
    fn from(s: String) -> (r: Value) {
        Value::Utf8String(s)
    }
}

impl vstd::std_specs::convert::FromSpecImpl<&str> for Value {
    /// A string slice has no spec-level conversion into an owned string,
    /// so nothing is promised of the produced value here; the text content
    /// is still pinned through [`ToValue`] where a contract is needed.
    open spec fn obeys_from_spec() -> bool {
        false
    }

    open spec fn from_spec(s: &str) -> Value {
        arbitrary()
    }
}

impl From<&str> for Value {
    fn from(s: &str) -> (r: Value) {
        Value::Utf8String(s.to_owned())
    }
}

impl vstd::std_specs::convert::FromSpecImpl<bool> for Value {
    open spec fn obeys_from_spec() -> bool {
        true
    }

    open spec fn from_spec(i: bool) -> Value {
        if i {
            Value::Simple(Simple::True)
        } else {
            Value::Simple(Simple::False)
        }
    }
}

impl From<bool> for Value {
    fn from(i: bool) -> (r: Value) {
        if i {
            Value::Simple(Simple::True)
        } else {
            Value::Simple(Simple::False)
        }
    }
}

impl<T> vstd::std_specs::convert::FromSpecImpl<Vec<T>> for Value where Value: From<T> {
    /// The exec conversion maps each element through its own `From`; a
    /// container of converted exec values cannot be written down at the
    /// spec level, so nothing is promised here.
    open spec fn obeys_from_spec() -> bool {
        false
    }

    open spec fn from_spec(v: Vec<T>) -> Value {
        arbitrary()
    }
}

impl<T> From<Vec<T>> for Value where Value: From<T> {
    fn from(v: Vec<T>) -> (r: Value) {
        let mut rem = v;
        let mut arr: Vec<Value> = Vec::new();
        while rem.len() > 0
            decreases rem.len(),
        {
            let e = rem.remove(0);
            arr.push(Value::from(e));
        }
        Value::Array(arr)
    }
}

impl<K, V, S> vstd::std_specs::convert::FromSpecImpl<std::collections::HashMap<K, V, S>> for Value where
    Value: From<K>,
    Value: From<V>,
 {
    /// As for sequences: the entry-by-entry exec conversion has no
    /// spec-level counterpart, and the iteration order is unspecified
    /// besides.
    open spec fn obeys_from_spec() -> bool {
        false
    }

    open spec fn from_spec(m: std::collections::HashMap<K, V, S>) -> Value {
        arbitrary()
    }
}

impl<K, V, S> From<std::collections::HashMap<K, V, S>> for Value where
    Value: From<K>,
    Value: From<V>,
 {
    fn from(m: std::collections::HashMap<K, V, S>) -> (r: Value) {
        let mut rem = hash_map_into_pairs(m);
        let mut pairs: Vec<KeyVal> = Vec::new();
        while rem.len() > 0
            decreases rem.len(),
        {
            let entry = rem.remove(0);
            pairs.push(KeyVal { key: Value::from(entry.0), val: Value::from(entry.1) });
        }
        Value::Table(pairs)
    }
}

impl<K, V> vstd::std_specs::convert::FromSpecImpl<std::collections::BTreeMap<K, V>> for Value where
    Value: From<K>,
    Value: From<V>,
 {
    /// As for sequences: the entry-by-entry exec conversion has no
    /// spec-level counterpart.
    open spec fn obeys_from_spec() -> bool {
        false
    }

    open spec fn from_spec(m: std::collections::BTreeMap<K, V>) -> Value {
        arbitrary()
    }
}

impl<K, V> From<std::collections::BTreeMap<K, V>> for Value where
    Value: From<K>,
    Value: From<V>,
 {
    fn from(m: std::collections::BTreeMap<K, V>) -> (r: Value) {
        let mut rem = btree_map_into_pairs(m);
        let mut pairs: Vec<KeyVal> = Vec::new();
        while rem.len() > 0
            decreases rem.len(),
        {
            let entry = rem.remove(0);
            pairs.push(KeyVal { key: Value::from(entry.0), val: Value::from(entry.1) });
        }
        Value::Table(pairs)
    }
}

} // verus!
