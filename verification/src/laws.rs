//! The laws the codec obeys, proved over the model: a decode of an encode
//! gives the value back, the encoder picks the shortest legal header, and
//! indefinite- and definite-length encodings of the same content decode to
//! the same tree.

use vstd::prelude::*;

use crate::model::{
    all_encodable, all_pairs_encodable, be_bytes, be_val, encodable, lemma_be_val_bound,
    min_len_width, neg_of, neg_rep, pair_encodable, pair_size, pairs_size, pow256,
    spec_encode_items, spec_encode_pair, spec_encode_pairs, spec_encode_simple, spec_encode_val,
    spec_header, spec_parse_after_header, spec_parse_chunks, spec_parse_items,
    spec_parse_items_indef, spec_parse_pairs, spec_parse_pairs_indef, spec_parse_uint,
    spec_parse_val, step, uint_width, val_size, vals_size, width_minor, Val,
};
use crate::ErrorKind;

verus! {

/// Splitting the byte `32 * major + c` recovers `major` and `c`.
proof fn lemma_header_byte(major: u8, c: u8)
    requires
        major < 8,
        c < 32,
    ensures
        ((32 * major + c) as u8) / 32 == major,
        ((32 * major + c) as u8) % 32 == c,
{
    let b = (32 * major + c) as u8;
    assert(b / 32 == major && b % 32 == c) by (nonlinear_arith)
        requires
            major < 8,
            c < 32,
            b == 32 * major + c,
    ;
}

/// Reading back the big-endian bytes of `x` recovers `x`.
proof fn lemma_be_val_of_be_bytes(x: u64, n: int, bytes: Seq<u8>, pos: int)
    requires
        0 <= n,
        0 <= pos,
        x < pow256(n),
        pos + n <= bytes.len(),
        bytes.subrange(pos, pos + n) == be_bytes(x, n),
    ensures
        be_val(bytes, pos, n) == x,
    decreases n,
{
    if n == 0 {
    } else {
        let q = x / 256;
        let r = x % 256;
        assert(be_bytes(x, n) == be_bytes(q as u64, n - 1).push(r as u8));
        assert(be_bytes(q as u64, n - 1).len() == n - 1) by {
            lemma_be_bytes_len(q as u64, n - 1);
        }
        assert(bytes[pos + n - 1] == r as u8) by {
            assert(bytes.subrange(pos, pos + n)[n - 1] == bytes[pos + n - 1]);
        }
        assert(bytes.subrange(pos, pos + n - 1) =~= be_bytes(q as u64, n - 1)) by {
            assert(forall|i: int|
                0 <= i < n - 1 ==> #[trigger] bytes.subrange(pos, pos + n)[i] == bytes[pos + i]);
        }
        assert(q < pow256(n - 1)) by (nonlinear_arith)
            requires
                x < pow256(n),
                pow256(n) == 256 * pow256(n - 1),
                q == x / 256,
                x >= 0,
        ;
        lemma_be_val_of_be_bytes(q as u64, n - 1, bytes, pos);
    }
}

/// `be_bytes` yields exactly `n` bytes.
proof fn lemma_be_bytes_len(x: u64, n: int)
    ensures
        n >= 0 ==> be_bytes(x, n).len() == n,
        n < 0 ==> be_bytes(x, n).len() == 0,
    decreases n,
{
    if n > 0 {
        lemma_be_bytes_len(x / 256, n - 1);
    }
}

/// The minimal header is one type byte plus its payload width, and the
/// compact value always fits the chosen width.
proof fn lemma_header_shape(major: u8, x: u64)
    requires
        major < 8,
    ensures
        spec_header(major, x).len() == 1 + min_len_width(x),
        min_len_width(x) != 0 ==> x < pow256(min_len_width(x)),
        min_len_width(x) == 0 ==> spec_header(major, x) == seq![(32 * major + x) as u8],
        min_len_width(x) != 0 ==> spec_header(major, x) == seq![
            (32 * major + width_minor(min_len_width(x))) as u8,
        ] + be_bytes(x, min_len_width(x)),
{
    let w = min_len_width(x);
    lemma_be_bytes_len(x, w);
    lemma_pow256_values();
}

/// The handful of `pow256` values the width classes rest on.
proof fn lemma_pow256_values()
    ensures
        pow256(0) == 1,
        pow256(1) == 0x100,
        pow256(2) == 0x10000,
        pow256(4) == 0x100000000,
        pow256(7) == 0x100000000000000,
        pow256(8) == 0x10000000000000000,
{
    reveal_with_fuel(pow256, 9);
    assert(pow256(1) == 256 * pow256(0));
    assert(pow256(2) == 256 * pow256(1));
    assert(pow256(3) == 256 * pow256(2));
    assert(pow256(4) == 256 * pow256(3));
    assert(pow256(5) == 256 * pow256(4));
    assert(pow256(6) == 256 * pow256(5));
    assert(pow256(7) == 256 * pow256(6));
    assert(pow256(8) == 256 * pow256(7));
}

/// Parsing a minimal-length header recovers the major type and the compact
/// value, and consumes exactly the header.
proof fn lemma_parse_uint_of_header(major: u8, x: u64, bytes: Seq<u8>, pos: int)
    requires
        major < 8,
        0 <= pos,
        pos + spec_header(major, x).len() <= bytes.len(),
        bytes.subrange(pos, pos + spec_header(major, x).len()) == spec_header(major, x),
    ensures
        pos < bytes.len(),
        bytes[pos] / 32 == major,
        bytes[pos] % 32 < 28,
        spec_parse_uint(bytes, pos + 1, bytes[pos] % 32) == Ok::<(u64, int), ErrorKind>(
            (x, pos + spec_header(major, x).len()),
        ),
{
    let h = spec_header(major, x);
    let w = min_len_width(x);
    lemma_header_shape(major, x);
    assert(bytes[pos] == h[0]) by {
        assert(bytes.subrange(pos, pos + h.len())[0] == bytes[pos]);
    }
    if w == 0 {
        lemma_header_byte(major, x as u8);
    } else {
        lemma_header_byte(major, width_minor(w));
        assert(bytes.subrange(pos + 1, pos + 1 + w) =~= be_bytes(x, w)) by {
            assert(forall|i: int|
                0 <= i < h.len() ==> #[trigger] bytes.subrange(pos, pos + h.len())[i] == bytes[pos
                    + i]);
            assert(forall|i: int| 0 <= i < w ==> h[1 + i] == be_bytes(x, w)[i]);
        }
        lemma_be_val_of_be_bytes(x, w, bytes, pos + 1);
        lemma_pow256_values();
    }
}

/// Every encoding is at least one byte long.
proof fn lemma_encode_len_pos(v: Val)
    ensures
        spec_encode_val(v).len() >= 1,
{
    match v {
        Val::Unsigned(x) => {
            lemma_header_shape(0, x);
        },
        Val::Negative(n) => {
            lemma_header_shape(1, neg_rep(n));
        },
        Val::Bytes(b) => {
            lemma_header_shape(2, b.len() as u64);
        },
        Val::Text(t) => {
            lemma_header_shape(3, vstd::utf8::encode_utf8(t).len() as u64);
        },
        Val::Array(vs) => {
            lemma_header_shape(4, vs.len() as u64);
        },
        Val::Table(ps) => {
            lemma_header_shape(5, ps.len() as u64);
        },
        Val::Float(_) => {},
        Val::Simple(_) => {},
    }
}

/// Parsing at the start of an encoding yields the encoded value back and
/// consumes exactly the encoding, whatever bytes follow it.
pub proof fn lemma_parse_encoded(v: Val, bytes: Seq<u8>, pos: int)
    requires
        encodable(v),
        0 <= pos,
        pos + spec_encode_val(v).len() <= bytes.len(),
        bytes.subrange(pos, pos + spec_encode_val(v).len()) == spec_encode_val(v),
    ensures
        spec_parse_val(bytes, pos) == Ok::<(Val, int), ErrorKind>(
            (v, pos + spec_encode_val(v).len()),
        ),
    decreases val_size(v), 0int, 0int,
{
    let enc = spec_encode_val(v);
    lemma_encode_len_pos(v);
    assert(forall|i: int|
        0 <= i < enc.len() ==> #[trigger] bytes.subrange(pos, pos + enc.len())[i] == bytes[pos
            + i]);
    assert(bytes.subrange(pos, pos + enc.len())[0] == bytes[pos]);
    assert(pos < bytes.len());
    assert(spec_parse_val(bytes, pos) == spec_parse_after_header(
        bytes,
        pos + 1,
        bytes[pos] / 32,
        bytes[pos] % 32,
    ));
    match v {
        Val::Unsigned(x) => {
            lemma_parse_uint_of_header(0, x, bytes, pos);
        },
        Val::Negative(n) => {
            lemma_parse_uint_of_header(1, neg_rep(n), bytes, pos);
            assert(neg_of(neg_rep(n)) == n);
        },
        Val::Bytes(b) => {
            let bl = b.len() as u64;
            let h = spec_header(2, bl);
            lemma_header_shape(2, bl);
            assert(bytes.subrange(pos, pos + h.len()) =~= h) by {
                assert(forall|i: int| 0 <= i < h.len() ==> enc[i] == h[i]);
            }
            lemma_parse_uint_of_header(2, bl, bytes, pos);
            let p = pos + h.len();
            assert(bytes.subrange(p, p + b.len()) =~= b) by {
                assert(forall|i: int| 0 <= i < b.len() ==> enc[h.len() + i] == b[i]);
            }
        },
        Val::Text(t) => {
            broadcast use vstd::utf8::encode_utf8_valid_utf8, vstd::utf8::encode_utf8_decode_utf8;

            let tb = vstd::utf8::encode_utf8(t);
            let bl = tb.len() as u64;
            let h = spec_header(3, bl);
            lemma_header_shape(3, bl);
            assert(bytes.subrange(pos, pos + h.len()) =~= h) by {
                assert(forall|i: int| 0 <= i < h.len() ==> enc[i] == h[i]);
            }
            lemma_parse_uint_of_header(3, bl, bytes, pos);
            let p = pos + h.len();
            assert(bytes.subrange(p, p + tb.len()) =~= tb) by {
                assert(forall|i: int| 0 <= i < tb.len() ==> enc[h.len() + i] == tb[i]);
            }
        },
        Val::Array(vs) => {
            let n = vs.len() as u64;
            let h = spec_header(4, n);
            lemma_header_shape(4, n);
            assert(bytes.subrange(pos, pos + h.len()) =~= h) by {
                assert(forall|i: int| 0 <= i < h.len() ==> enc[i] == h[i]);
            }
            lemma_parse_uint_of_header(4, n, bytes, pos);
            let p = pos + h.len();
            let body = spec_encode_items(vs);
            assert(bytes.subrange(p, p + body.len()) =~= body) by {
                assert(forall|i: int| 0 <= i < body.len() ==> enc[h.len() + i] == body[i]);
            }
            lemma_parse_encoded_items(vs, bytes, p);
        },
        Val::Table(ps) => {
            let n = ps.len() as u64;
            let h = spec_header(5, n);
            lemma_header_shape(5, n);
            assert(bytes.subrange(pos, pos + h.len()) =~= h) by {
                assert(forall|i: int| 0 <= i < h.len() ==> enc[i] == h[i]);
            }
            lemma_parse_uint_of_header(5, n, bytes, pos);
            let p = pos + h.len();
            let body = spec_encode_pairs(ps);
            assert(bytes.subrange(p, p + body.len()) =~= body) by {
                assert(forall|i: int| 0 <= i < body.len() ==> enc[h.len() + i] == body[i]);
            }
            lemma_parse_encoded_pairs(ps, bytes, p);
        },
        Val::Float(bits) => {
            assert(enc == seq![0xFBu8] + be_bytes(bits, 8));
            assert(enc[0] == 0xFBu8);
            assert(bytes.subrange(pos, pos + enc.len())[0] == bytes[pos]);
            assert(bytes[pos] == 0xFB);
            lemma_header_byte(7, 27);
            lemma_be_bytes_len(bits, 8);
            assert(enc.len() == 9);
            assert(bytes.subrange(pos + 1, pos + 9) =~= be_bytes(bits, 8)) by {
                assert(forall|i: int|
                    0 <= i < 8 ==> enc[1 + i] == #[trigger] be_bytes(bits, 8)[i]);
            }
            lemma_pow256_values();
            lemma_be_val_of_be_bytes(bits, 8, bytes, pos + 1);
        },
        Val::Simple(s) => {
            match s {
                crate::value::types::Simple::False => {
                    lemma_header_byte(7, 20);
                },
                crate::value::types::Simple::True => {
                    lemma_header_byte(7, 21);
                },
                crate::value::types::Simple::Null => {
                    lemma_header_byte(7, 22);
                },
                crate::value::types::Simple::Undefined => {
                    lemma_header_byte(7, 23);
                },
                crate::value::types::Simple::Unassigned(x) => {
                    if x < 20 {
                        lemma_header_byte(7, x);
                    } else {
                        lemma_header_byte(7, 24);
                        assert(bytes[pos + 1] == x);
                    }
                },
            }
        },
    }
}

/// Parsing at the start of the concatenated encodings of `vs` yields the
/// values of `vs` back, in order.
proof fn lemma_parse_encoded_items(vs: Seq<Val>, bytes: Seq<u8>, pos: int)
    requires
        all_encodable(vs),
        vs.len() < 0x10000000000000000,
        0 <= pos,
        pos + spec_encode_items(vs).len() <= bytes.len(),
        bytes.subrange(pos, pos + spec_encode_items(vs).len()) == spec_encode_items(vs),
    ensures
        spec_parse_items(bytes, pos, vs.len() as u64) == Ok::<(Seq<Val>, int), ErrorKind>(
            (vs, pos + spec_encode_items(vs).len()),
        ),
    decreases vals_size(vs), vs.len(), 1int,
{
    if vs.len() == 0 {
        assert(spec_parse_items(bytes, pos, 0) == Ok::<(Seq<Val>, int), ErrorKind>(
            (Seq::empty(), pos),
        ));
        assert(vs =~= Seq::<Val>::empty());
    } else {
        let enc = spec_encode_items(vs);
        let head = vs[0];
        let tail = vs.subrange(1, vs.len() as int);
        let e0 = spec_encode_val(head);
        let erest = spec_encode_items(tail);
        assert(enc == e0 + erest);
        assert(forall|i: int|
            0 <= i < enc.len() ==> #[trigger] bytes.subrange(pos, pos + enc.len())[i] == bytes[pos
                + i]);
        lemma_encode_len_pos(head);
        assert(bytes.subrange(pos, pos + e0.len()) =~= e0) by {
            assert(forall|i: int| 0 <= i < e0.len() ==> enc[i] == e0[i]);
        }
        assert(val_size(head) <= vals_size(vs)) by {
            crate::model::lemma_vals_size_elem(vs, 0);
        }
        lemma_parse_encoded(head, bytes, pos);
        let p1 = pos + e0.len();
        assert(bytes.subrange(p1, p1 + erest.len()) =~= erest) by {
            assert(forall|i: int| 0 <= i < erest.len() ==> enc[e0.len() + i] == erest[i]);
        }
        assert(vals_size(tail) <= vals_size(vs));
        lemma_parse_encoded_items(tail, bytes, p1);
        assert(step(pos, p1, bytes.len() as int) == p1);
        assert(seq![head] + tail =~= vs);
    }
}

/// Parsing at the start of the concatenated encodings of `ps` yields the
/// pairs of `ps` back, in order.
proof fn lemma_parse_encoded_pairs(ps: Seq<(Val, Val)>, bytes: Seq<u8>, pos: int)
    requires
        all_pairs_encodable(ps),
        ps.len() < 0x10000000000000000,
        0 <= pos,
        pos + spec_encode_pairs(ps).len() <= bytes.len(),
        bytes.subrange(pos, pos + spec_encode_pairs(ps).len()) == spec_encode_pairs(ps),
    ensures
        spec_parse_pairs(bytes, pos, ps.len() as u64) == Ok::<(Seq<(Val, Val)>, int), ErrorKind>(
            (ps, pos + spec_encode_pairs(ps).len()),
        ),
    decreases pairs_size(ps), ps.len(), 1int,
{
    if ps.len() == 0 {
        assert(spec_parse_pairs(bytes, pos, 0) == Ok::<(Seq<(Val, Val)>, int), ErrorKind>(
            (Seq::empty(), pos),
        ));
        assert(ps =~= Seq::<(Val, Val)>::empty());
    } else {
        let enc = spec_encode_pairs(ps);
        let head = ps[0];
        let tail = ps.subrange(1, ps.len() as int);
        let ek = spec_encode_val(head.0);
        let ev = spec_encode_val(head.1);
        let erest = spec_encode_pairs(tail);
        assert(pair_encodable(head));
        assert(enc == spec_encode_pair(head) + erest);
        assert(spec_encode_pair(head) == ek + ev);
        assert(enc == (ek + ev) + erest);
        assert(forall|i: int|
            0 <= i < enc.len() ==> #[trigger] bytes.subrange(pos, pos + enc.len())[i] == bytes[pos
                + i]);
        lemma_encode_len_pos(head.0);
        lemma_encode_len_pos(head.1);
        assert(pair_size(head) <= pairs_size(ps)) by {
            crate::model::lemma_pairs_size_elem(ps, 0);
        }
        assert(bytes.subrange(pos, pos + ek.len()) =~= ek) by {
            assert(forall|i: int| 0 <= i < ek.len() ==> enc[i] == ek[i]);
        }
        lemma_parse_encoded(head.0, bytes, pos);
        let p1 = pos + ek.len();
        assert(bytes.subrange(p1, p1 + ev.len()) =~= ev) by {
            assert(forall|i: int| 0 <= i < ev.len() ==> enc[ek.len() + i] == ev[i]);
        }
        lemma_parse_encoded(head.1, bytes, p1);
        let p2 = p1 + ev.len();
        assert(bytes.subrange(p2, p2 + erest.len()) =~= erest) by {
            assert(forall|i: int|
                0 <= i < erest.len() ==> enc[ek.len() + ev.len() + i] == erest[i]);
        }
        assert(pairs_size(tail) <= pairs_size(ps));
        lemma_parse_encoded_pairs(tail, bytes, p2);
        assert(step(pos, p1, bytes.len() as int) == p1);
        assert(step(pos, p2, bytes.len() as int) == p2);
        assert(seq![head] + tail =~= ps);
    }
}

/// Minimal-length encoding: no byte stream that decodes to `Unsigned(n)`
/// does so in fewer bytes than the encoder emits for `Unsigned(n)`. The
/// bytes consumed by any successful parse of the value are at least the
/// length of the minimal encoding.
pub proof fn lemma_encode_unsigned_minimal(bytes: Seq<u8>, pos: int, n: u64, p: int)
    requires
        spec_parse_val(bytes, pos) == Ok::<(Val, int), ErrorKind>((Val::Unsigned(n), p)),
    ensures
        p - pos >= spec_encode_val(Val::Unsigned(n)).len(),
    decreases bytes.len() - pos,
{
    assert(0 <= pos < bytes.len());
    let major = bytes[pos] / 32;
    let minor = bytes[pos] % 32;
    lemma_header_shape(0, n);
    lemma_pow256_values();
    if major == 0 {
        if minor <= 23 {
        } else {
            let w = uint_width(minor);
            lemma_be_val_bound(bytes, pos + 1, w);
        }
    } else if major == 6 {
        lemma_encode_unsigned_minimal(bytes, pos + 1, n, p);
    }
}

/// The first byte of an encoding is never the break byte `0xFF`.
proof fn lemma_encode_first_byte_not_break(v: Val)
    ensures
        spec_encode_val(v).len() >= 1,
        spec_encode_val(v)[0] != 0xFF,
{
    lemma_encode_len_pos(v);
    match v {
        Val::Unsigned(x) => {
            lemma_header_first_byte(0, x);
        },
        Val::Negative(x) => {
            lemma_header_first_byte(1, neg_rep(x));
        },
        Val::Bytes(b) => {
            lemma_header_first_byte(2, b.len() as u64);
            assert(spec_encode_val(v)[0] == spec_header(2, b.len() as u64)[0]);
        },
        Val::Text(t) => {
            let bl = vstd::utf8::encode_utf8(t).len() as u64;
            lemma_header_first_byte(3, bl);
            assert(spec_encode_val(v)[0] == spec_header(3, bl)[0]);
        },
        Val::Array(vs) => {
            lemma_header_first_byte(4, vs.len() as u64);
            assert(spec_encode_val(v)[0] == spec_header(4, vs.len() as u64)[0]);
        },
        Val::Table(ps) => {
            lemma_header_first_byte(5, ps.len() as u64);
            assert(spec_encode_val(v)[0] == spec_header(5, ps.len() as u64)[0]);
        },
        Val::Float(bits) => {
            assert(spec_encode_val(v)[0] == 0xFB);
        },
        Val::Simple(s) => {
            assert(spec_encode_val(v) == spec_encode_simple(s));
        },
    }
}

/// The first byte of a header with major type at most 5 stays below the
/// major-7 range, so it is never the break byte.
proof fn lemma_header_first_byte(major: u8, x: u64)
    requires
        major < 8,
    ensures
        spec_header(major, x).len() >= 1,
        major <= 5 ==> spec_header(major, x)[0] != 0xFF,
{
    lemma_header_shape(major, x);
}

/// The indefinite-length wire form of an array holding the values of `vs`:
/// the indefinite array header, the elements, a break byte.
pub open spec fn indef_array_enc(vs: Seq<Val>) -> Seq<u8> {
    seq![0x9Fu8] + spec_encode_items(vs) + seq![0xFFu8]
}

/// The indefinite-length wire form of a map holding the pairs of `ps`.
pub open spec fn indef_table_enc(ps: Seq<(Val, Val)>) -> Seq<u8> {
    seq![0xBFu8] + spec_encode_pairs(ps) + seq![0xFFu8]
}

/// The chunk bodies of an indefinite-length string, each with its own
/// definite byte-string header.
pub open spec fn chunks_enc(cs: Seq<Seq<u8>>) -> Seq<u8>
    decreases cs.len(),
{
    if cs.len() == 0 {
        Seq::empty()
    } else {
        (spec_header(2, cs[0].len() as u64) + cs[0]) + chunks_enc(cs.subrange(1, cs.len() as int))
    }
}

/// The concatenation of the chunk payloads.
pub open spec fn chunks_cat(cs: Seq<Seq<u8>>) -> Seq<u8>
    decreases cs.len(),
{
    if cs.len() == 0 {
        Seq::empty()
    } else {
        cs[0] + chunks_cat(cs.subrange(1, cs.len() as int))
    }
}

/// Whether every chunk's length fits the 64-bit length field.
pub open spec fn chunks_small(cs: Seq<Seq<u8>>) -> bool
    decreases cs.len(),
{
    if cs.len() == 0 {
        true
    } else {
        cs[0].len() < 0x10000000000000000 && chunks_small(cs.subrange(1, cs.len() as int))
    }
}

/// The indefinite-length wire form of a byte string split into the chunks
/// `cs`: the indefinite byte-string header, the chunks, a break byte.
pub open spec fn indef_bytes_enc(cs: Seq<Seq<u8>>) -> Seq<u8> {
    seq![0x5Fu8] + chunks_enc(cs) + seq![0xFFu8]
}

/// The indefinite-length wire form of a text string split into the chunks
/// `cs`.
pub open spec fn indef_text_enc(cs: Seq<Seq<u8>>) -> Seq<u8> {
    seq![0x7Fu8] + chunks_enc(cs) + seq![0xFFu8]
}

/// Parsing an element stream closed by a break byte yields the encoded
/// values.
proof fn lemma_parse_items_indef_encoded(vs: Seq<Val>, bytes: Seq<u8>, pos: int)
    requires
        all_encodable(vs),
        0 <= pos,
        pos + spec_encode_items(vs).len() + 1 <= bytes.len(),
        bytes.subrange(pos, pos + spec_encode_items(vs).len()) == spec_encode_items(vs),
        bytes[pos + spec_encode_items(vs).len()] == 0xFF,
    ensures
        spec_parse_items_indef(bytes, pos) == Ok::<(Seq<Val>, int), ErrorKind>(
            (vs, pos + spec_encode_items(vs).len() + 1),
        ),
    decreases vals_size(vs), vs.len(), 1int,
{
    let enc = spec_encode_items(vs);
    assert(forall|i: int|
        0 <= i < enc.len() ==> #[trigger] bytes.subrange(pos, pos + enc.len())[i] == bytes[pos
            + i]);
    if vs.len() == 0 {
        assert(vs =~= Seq::<Val>::empty());
    } else {
        let head = vs[0];
        let tail = vs.subrange(1, vs.len() as int);
        let e0 = spec_encode_val(head);
        let erest = spec_encode_items(tail);
        assert(enc == e0 + erest);
        lemma_encode_first_byte_not_break(head);
        assert(bytes.subrange(pos, pos + enc.len())[0] == bytes[pos]);
        assert(bytes[pos] == e0[0]);
        assert(bytes.subrange(pos, pos + e0.len()) =~= e0) by {
            assert(forall|i: int| 0 <= i < e0.len() ==> enc[i] == e0[i]);
        }
        assert(val_size(head) <= vals_size(vs)) by {
            crate::model::lemma_vals_size_elem(vs, 0);
        }
        lemma_parse_encoded(head, bytes, pos);
        let p1 = pos + e0.len();
        assert(bytes.subrange(p1, p1 + erest.len()) =~= erest) by {
            assert(forall|i: int| 0 <= i < erest.len() ==> enc[e0.len() + i] == erest[i]);
        }
        assert(vals_size(tail) <= vals_size(vs));
        lemma_parse_items_indef_encoded(tail, bytes, p1);
        assert(step(pos, p1, bytes.len() as int) == p1);
        assert(seq![head] + tail =~= vs);
    }
}

/// Parsing a pair stream closed by a break byte yields the encoded pairs.
proof fn lemma_parse_pairs_indef_encoded(ps: Seq<(Val, Val)>, bytes: Seq<u8>, pos: int)
    requires
        all_pairs_encodable(ps),
        0 <= pos,
        pos + spec_encode_pairs(ps).len() + 1 <= bytes.len(),
        bytes.subrange(pos, pos + spec_encode_pairs(ps).len()) == spec_encode_pairs(ps),
        bytes[pos + spec_encode_pairs(ps).len()] == 0xFF,
    ensures
        spec_parse_pairs_indef(bytes, pos) == Ok::<(Seq<(Val, Val)>, int), ErrorKind>(
            (ps, pos + spec_encode_pairs(ps).len() + 1),
        ),
    decreases pairs_size(ps), ps.len(), 1int,
{
    let enc = spec_encode_pairs(ps);
    assert(forall|i: int|
        0 <= i < enc.len() ==> #[trigger] bytes.subrange(pos, pos + enc.len())[i] == bytes[pos
            + i]);
    if ps.len() == 0 {
        assert(ps =~= Seq::<(Val, Val)>::empty());
    } else {
        let head = ps[0];
        let tail = ps.subrange(1, ps.len() as int);
        let ek = spec_encode_val(head.0);
        let ev = spec_encode_val(head.1);
        let erest = spec_encode_pairs(tail);
        assert(pair_encodable(head));
        assert(enc == spec_encode_pair(head) + erest);
        assert(spec_encode_pair(head) == ek + ev);
        assert(enc == (ek + ev) + erest);
        lemma_encode_first_byte_not_break(head.0);
        lemma_encode_len_pos(head.1);
        assert(bytes.subrange(pos, pos + enc.len())[0] == bytes[pos]);
        assert(bytes[pos] == ek[0]);
        assert(pair_size(head) <= pairs_size(ps)) by {
            crate::model::lemma_pairs_size_elem(ps, 0);
        }
        assert(bytes.subrange(pos, pos + ek.len()) =~= ek) by {
            assert(forall|i: int| 0 <= i < ek.len() ==> enc[i] == ek[i]);
        }
        lemma_parse_encoded(head.0, bytes, pos);
        let p1 = pos + ek.len();
        assert(bytes.subrange(p1, p1 + ev.len()) =~= ev) by {
            assert(forall|i: int| 0 <= i < ev.len() ==> enc[ek.len() + i] == ev[i]);
        }
        lemma_parse_encoded(head.1, bytes, p1);
        let p2 = p1 + ev.len();
        assert(bytes.subrange(p2, p2 + erest.len()) =~= erest) by {
            assert(forall|i: int|
                0 <= i < erest.len() ==> enc[ek.len() + ev.len() + i] == erest[i]);
        }
        assert(pairs_size(tail) <= pairs_size(ps));
        lemma_parse_pairs_indef_encoded(tail, bytes, p2);
        assert(step(pos, p1, bytes.len() as int) == p1);
        assert(step(pos, p2, bytes.len() as int) == p2);
        assert(seq![head] + tail =~= ps);
    }
}

/// Parsing a chunk stream closed by a break byte yields the concatenated
/// chunk payloads.
proof fn lemma_parse_chunks_encoded(cs: Seq<Seq<u8>>, bytes: Seq<u8>, pos: int)
    requires
        chunks_small(cs),
        0 <= pos,
        pos + chunks_enc(cs).len() + 1 <= bytes.len(),
        bytes.subrange(pos, pos + chunks_enc(cs).len()) == chunks_enc(cs),
        bytes[pos + chunks_enc(cs).len()] == 0xFF,
    ensures
        spec_parse_chunks(bytes, pos) == Ok::<(Seq<u8>, int), ErrorKind>(
            (chunks_cat(cs), pos + chunks_enc(cs).len() + 1),
        ),
    decreases cs.len(),
{
    let enc = chunks_enc(cs);
    assert(forall|i: int|
        0 <= i < enc.len() ==> #[trigger] bytes.subrange(pos, pos + enc.len())[i] == bytes[pos
            + i]);
    if cs.len() == 0 {
        assert(chunks_cat(cs) =~= Seq::<u8>::empty());
    } else {
        let c0 = cs[0];
        let tail = cs.subrange(1, cs.len() as int);
        let cl = c0.len() as u64;
        let h = spec_header(2, cl);
        let erest = chunks_enc(tail);
        assert(enc == (h + c0) + erest);
        lemma_header_first_byte(2, cl);
        assert(bytes.subrange(pos, pos + enc.len())[0] == bytes[pos]);
        assert(bytes[pos] == h[0]);
        assert(bytes.subrange(pos, pos + h.len()) =~= h) by {
            assert(forall|i: int| 0 <= i < h.len() ==> enc[i] == h[i]);
        }
        lemma_parse_uint_of_header(2, cl, bytes, pos);
        let p = pos + h.len();
        assert(bytes.subrange(p, p + c0.len()) =~= c0) by {
            assert(forall|i: int| 0 <= i < c0.len() ==> enc[h.len() + i] == c0[i]);
        }
        let end = p + c0.len();
        assert(bytes.subrange(end, end + erest.len()) =~= erest) by {
            assert(forall|i: int|
                0 <= i < erest.len() ==> enc[h.len() + c0.len() + i] == erest[i]);
        }
        lemma_parse_chunks_encoded(tail, bytes, end);
        assert(step(pos, end, bytes.len() as int) == end);
        assert(c0 + chunks_cat(tail) == chunks_cat(cs));
        assert(bytes.subrange(p, p + cl as int) == bytes.subrange(p, end));
    }
}

/// Indefinite/definite equivalence for arrays: the indefinite-length and
/// the definite-length encodings of the same element sequence decode to
/// the same value tree.
pub proof fn lemma_indef_definite_array(vs: Seq<Val>)
    requires
        all_encodable(vs),
        vs.len() < 0x10000000000000000,
    ensures
        spec_parse_val(indef_array_enc(vs), 0) == Ok::<(Val, int), ErrorKind>(
            (Val::Array(vs), indef_array_enc(vs).len() as int),
        ),
        spec_parse_val(spec_encode_val(Val::Array(vs)), 0) matches Ok(t) && t.0 == Val::Array(vs),
{
    lemma_round_trip(Val::Array(vs));
    let bytes = indef_array_enc(vs);
    let body = spec_encode_items(vs);
    assert(bytes[0] == 0x9F);
    assert(spec_parse_val(bytes, 0) == spec_parse_after_header(
        bytes,
        1,
        bytes[0] / 32,
        bytes[0] % 32,
    ));
    lemma_header_byte(4, 31);
    assert(bytes.subrange(1, 1 + body.len() as int) =~= body);
    assert(bytes[1 + body.len() as int] == 0xFF);
    lemma_parse_items_indef_encoded(vs, bytes, 1);
}

/// Indefinite/definite equivalence for maps.
pub proof fn lemma_indef_definite_table(ps: Seq<(Val, Val)>)
    requires
        all_pairs_encodable(ps),
        ps.len() < 0x10000000000000000,
    ensures
        spec_parse_val(indef_table_enc(ps), 0) == Ok::<(Val, int), ErrorKind>(
            (Val::Table(ps), indef_table_enc(ps).len() as int),
        ),
        spec_parse_val(spec_encode_val(Val::Table(ps)), 0) matches Ok(t) && t.0 == Val::Table(ps),
{
    lemma_round_trip(Val::Table(ps));
    let bytes = indef_table_enc(ps);
    let body = spec_encode_pairs(ps);
    assert(bytes[0] == 0xBF);
    assert(spec_parse_val(bytes, 0) == spec_parse_after_header(
        bytes,
        1,
        bytes[0] / 32,
        bytes[0] % 32,
    ));
    lemma_header_byte(5, 31);
    assert(bytes.subrange(1, 1 + body.len() as int) =~= body);
    assert(bytes[1 + body.len() as int] == 0xFF);
    lemma_parse_pairs_indef_encoded(ps, bytes, 1);
}

/// Indefinite/definite equivalence for byte strings: chunking a byte
/// string any way and closing with a break byte decodes to the same value
/// as the definite-length encoding of the concatenated payload.
pub proof fn lemma_indef_definite_bytes(cs: Seq<Seq<u8>>)
    requires
        chunks_small(cs),
        chunks_cat(cs).len() < 0x10000000000000000,
    ensures
        spec_parse_val(indef_bytes_enc(cs), 0) == Ok::<(Val, int), ErrorKind>(
            (Val::Bytes(chunks_cat(cs)), indef_bytes_enc(cs).len() as int),
        ),
        spec_parse_val(spec_encode_val(Val::Bytes(chunks_cat(cs))), 0) matches Ok(t) && t.0
            == Val::Bytes(chunks_cat(cs)),
{
    lemma_round_trip(Val::Bytes(chunks_cat(cs)));
    let bytes = indef_bytes_enc(cs);
    let body = chunks_enc(cs);
    assert(bytes[0] == 0x5F);
    assert(spec_parse_val(bytes, 0) == spec_parse_after_header(
        bytes,
        1,
        bytes[0] / 32,
        bytes[0] % 32,
    ));
    lemma_header_byte(2, 31);
    assert(bytes.subrange(1, 1 + body.len() as int) =~= body);
    assert(bytes[1 + body.len() as int] == 0xFF);
    lemma_parse_chunks_encoded(cs, bytes, 1);
}

/// Indefinite/definite equivalence for text strings: when the concatenated
/// chunk payloads are valid UTF-8, the chunked indefinite form and the
/// definite form decode to the same text value.
pub proof fn lemma_indef_definite_text(cs: Seq<Seq<u8>>)
    requires
        chunks_small(cs),
        chunks_cat(cs).len() < 0x10000000000000000,
        vstd::utf8::valid_utf8(chunks_cat(cs)),
    ensures
        spec_parse_val(indef_text_enc(cs), 0) == Ok::<(Val, int), ErrorKind>(
            (Val::Text(vstd::utf8::decode_utf8(chunks_cat(cs))), indef_text_enc(cs).len() as int),
        ),
        spec_parse_val(spec_encode_val(Val::Text(vstd::utf8::decode_utf8(chunks_cat(cs)))), 0)
            matches Ok(t) && t.0 == Val::Text(vstd::utf8::decode_utf8(chunks_cat(cs))),
{
    let cat = chunks_cat(cs);
    let t = vstd::utf8::decode_utf8(cat);
    vstd::utf8::decode_utf8_encode_utf8(cat);
    lemma_round_trip(Val::Text(t));
    let bytes = indef_text_enc(cs);
    let body = chunks_enc(cs);
    assert(bytes[0] == 0x7F);
    assert(spec_parse_val(bytes, 0) == spec_parse_after_header(
        bytes,
        1,
        bytes[0] / 32,
        bytes[0] % 32,
    ));
    lemma_header_byte(3, 31);
    assert(bytes.subrange(1, 1 + body.len() as int) =~= body);
    assert(bytes[1 + body.len() as int] == 0xFF);
    lemma_parse_chunks_encoded(cs, bytes, 1);
}

/// Round trip: decoding an encodable value's encoding yields the value
/// back, consuming the whole encoding. Values whose aggregates carry the
/// reserved simple codes 20..=31 are the one exception: those codes have no
/// well-formed encoding in the format.
pub proof fn lemma_round_trip(v: Val)
    requires
        encodable(v),
    ensures
        spec_parse_val(spec_encode_val(v), 0) == Ok::<(Val, int), ErrorKind>(
            (v, spec_encode_val(v).len() as int),
        ),
{
    let enc = spec_encode_val(v);
    assert(enc.subrange(0, enc.len() as int) =~= enc);
    lemma_parse_encoded(v, enc, 0);
}

} // verus!
