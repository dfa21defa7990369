//! The mathematical model of the codec: an abstract value tree, the parse of
//! a byte sequence as a function from a position to a value and a new
//! position, and the minimal-length wire encoding as a function on values.

use vstd::prelude::*;
use vstd::utf8::{decode_utf8, encode_utf8, valid_utf8};

use crate::value::types::Simple;
use crate::ErrorKind;

verus! {

/// The abstract form of a [`crate::value::types::Value`] tree: byte and text
/// payloads become sequences, aggregates become sequences of abstract values.
/// Contracts throughout the crate speak of this type.
pub enum Val {
    Unsigned(u64),
    Negative(i64),
    Bytes(Seq<u8>),
    Text(Seq<char>),
    Array(Seq<Val>),
    Table(Seq<(Val, Val)>),
    Float(u64),
    Simple(Simple),
}

/// How many bytes follow a header whose minor field is 24..=27.
pub open spec fn uint_width(minor: u8) -> int
    recommends
        24 <= minor <= 27,
{
    if minor == 24 {
        1
    } else if minor == 25 {
        2
    } else if minor == 26 {
        4
    } else {
        8
    }
}

/// The big-endian value of the `n` bytes of `bytes` starting at `pos`.
pub open spec fn be_val(bytes: Seq<u8>, pos: int, n: int) -> int
    decreases n,
{
    if n <= 0 {
        0
    } else {
        be_val(bytes, pos, n - 1) * 256 + bytes[pos + n - 1]
    }
}

/// `256^n`, the number of values `n` bytes can hold.
pub open spec fn pow256(n: int) -> int
    decreases n,
{
    if n <= 0 {
        1
    } else {
        256 * pow256(n - 1)
    }
}

/// The big-endian value of `n` bytes is nonnegative and below `256^n`.
pub proof fn lemma_be_val_bound(bytes: Seq<u8>, pos: int, n: int)
    ensures
        0 <= be_val(bytes, pos, n) < pow256(n),
    decreases n,
{
    if n > 0 {
        lemma_be_val_bound(bytes, pos, n - 1);
    }
}

/// `pow256` grows with its argument.
pub proof fn lemma_pow256_mono(a: int, b: int)
    requires
        a <= b,
    ensures
        pow256(a) <= pow256(b),
    decreases b - a,
{
    if a < b {
        lemma_pow256_mono(a, b - 1);
        lemma_pow256_pos(b - 1);
    }
}

/// `pow256` is positive.
pub proof fn lemma_pow256_pos(n: int)
    ensures
        pow256(n) >= 1,
    decreases n,
{
    if n > 0 {
        lemma_pow256_pos(n - 1);
    }
}

/// Maps a parse of a sequence-shaped payload by prefixing what was already
/// read: the loop invariants of the decoder speak of the whole parse as the
/// part already gathered plus the parse of the rest.
pub open spec fn with_prefix<T>(acc: Seq<T>, r: Result<(Seq<T>, int), ErrorKind>) -> Result<
    (Seq<T>, int),
    ErrorKind,
> {
    match r {
        Ok((s, p)) => Ok((acc + s, p)),
        Err(e) => Err(e),
    }
}

/// Prefixing in two steps is prefixing with the concatenation.
pub proof fn lemma_with_prefix_assoc<T>(a: Seq<T>, b: Seq<T>, r: Result<(Seq<T>, int), ErrorKind>)
    ensures
        with_prefix(a, with_prefix(b, r)) == with_prefix(a + b, r),
{
    match r {
        Ok((s, p)) => {
            assert((a + b) + s =~= a + (b + s));
        },
        Err(_) => {},
    }
}

/// The signed value that a major-type-1 item with compact payload `u`
/// decodes to: `-1 - u`, reduced into `i64` by the two's-complement wrap the
/// 64-bit offset representation forces for `u >= 2^63`.
pub open spec fn neg_of(u: u64) -> i64 {
    if u < 0x8000000000000000 {
        (-1 - u as int) as i64
    } else {
        (0xFFFFFFFFFFFFFFFF - u as int) as i64
    }
}

/// The compact payload that encodes `Negative(n)`: `-1 - n` modulo `2^64`.
pub open spec fn neg_rep(n: i64) -> u64 {
    if n < 0 {
        (-1 - n as int) as u64
    } else {
        (0xFFFFFFFFFFFFFFFF - n as int) as u64
    }
}

/// Parses the variable-width unsigned payload selected by `minor`, the low
/// five bits of a header byte already consumed: 0..=23 is the literal value,
/// 24..=27 reads 1/2/4/8 following big-endian bytes, anything else is
/// malformed.
pub open spec fn spec_parse_uint(bytes: Seq<u8>, pos: int, minor: u8) -> Result<
    (u64, int),
    ErrorKind,
> {
    if minor <= 23 {
        Ok((minor as u64, pos))
    } else if minor <= 27 {
        let w = uint_width(minor);
        if pos + w <= bytes.len() {
            Ok((be_val(bytes, pos, w) as u64, pos + w))
        } else {
            Err(ErrorKind::InsufficientBytes)
        }
    } else {
        Err(ErrorKind::UnexpectedValue)
    }
}

/// Parses a negative-integer payload: the unsigned rule gives `u`, and the
/// item stands for `-1 - u`, wrapped into `i64` as [`neg_of`] says.
pub open spec fn spec_parse_negint(bytes: Seq<u8>, pos: int, minor: u8) -> Result<
    (i64, int),
    ErrorKind,
> {
    match spec_parse_uint(bytes, pos, minor) {
        Ok((u, p)) => Ok((neg_of(u), p)),
        Err(e) => Err(e),
    }
}

/// Parses a text-string payload: the byte-string rule gives the bytes,
/// which must be valid UTF-8; invalid UTF-8 is a malformed item, not an
/// abort.
pub open spec fn spec_parse_text(bytes: Seq<u8>, pos: int, minor: u8) -> Result<
    (Seq<char>, int),
    ErrorKind,
> {
    match spec_parse_bytestr(bytes, pos, minor) {
        Ok((b, p)) => {
            if valid_utf8(b) {
                Ok((decode_utf8(b), p))
            } else {
                Err(ErrorKind::UnexpectedValue)
            }
        },
        Err(e) => Err(e),
    }
}

/// The next recursion position: `next` when it lies properly beyond `pos`
/// and within the stream, else a clamped stand-in. Every parse that
/// succeeds moves past `pos` and stays within the stream, so the clamp is
/// the identity wherever it is reached.
pub open spec fn step(pos: int, next: int, len: int) -> int {
    let capped = if next > len {
        len
    } else {
        next
    };
    if capped <= pos {
        pos + 1
    } else {
        capped
    }
}

/// Parses the chunks of an indefinite-length string up to and including the
/// break byte, concatenating the chunk payloads. As in the wire format the
/// codec accepts, a chunk's own major bits are ignored; only its length
/// field is read.
pub open spec fn spec_parse_chunks(bytes: Seq<u8>, pos: int) -> Result<(Seq<u8>, int), ErrorKind>
    decreases bytes.len() - pos,
{
    if pos < 0 || pos >= bytes.len() {
        Err(ErrorKind::InsufficientBytes)
    } else if bytes[pos] == 0xFF {
        Ok((Seq::empty(), pos + 1))
    } else {
        let minor = bytes[pos] % 32;
        match spec_parse_uint(bytes, pos + 1, minor) {
            Ok((cl, p)) => {
                if p + cl <= bytes.len() {
                    let end = p + cl as int;
                    match spec_parse_chunks(bytes, step(pos, end, bytes.len() as int)) {
                        Ok((rest, p2)) => Ok((bytes.subrange(p, end) + rest, p2)),
                        Err(e) => Err(e),
                    }
                } else {
                    Err(ErrorKind::InsufficientBytes)
                }
            },
            Err(e) => Err(e),
        }
    }
}

/// Parses a byte-string payload: minor 31 is the indefinite chunked form,
/// any other minor gives an exact byte count through the unsigned rule.
pub open spec fn spec_parse_bytestr(bytes: Seq<u8>, pos: int, minor: u8) -> Result<
    (Seq<u8>, int),
    ErrorKind,
> {
    if minor == 31 {
        spec_parse_chunks(bytes, pos)
    } else {
        match spec_parse_uint(bytes, pos, minor) {
            Ok((count, p)) => {
                if p + count <= bytes.len() {
                    Ok((bytes.subrange(p, p + count as int), p + count as int))
                } else {
                    Err(ErrorKind::InsufficientBytes)
                }
            },
            Err(e) => Err(e),
        }
    }
}

/// Parses a simple value (major 7, minor 0..=24): 0..=19 unassigned codes,
/// 20..=23 the four named values, 24 an extended code in one following byte
/// that must be at least 32. Minor 25..=31 never reaches a simple value and
/// is malformed here.
pub open spec fn spec_parse_simple(bytes: Seq<u8>, pos: int, minor: u8) -> Result<
    (Simple, int),
    ErrorKind,
> {
    if minor <= 19 {
        Ok((Simple::Unassigned(minor), pos))
    } else if minor == 20 {
        Ok((Simple::False, pos))
    } else if minor == 21 {
        Ok((Simple::True, pos))
    } else if minor == 22 {
        Ok((Simple::Null, pos))
    } else if minor == 23 {
        Ok((Simple::Undefined, pos))
    } else if minor == 24 {
        if pos < 0 || pos >= bytes.len() {
            Err(ErrorKind::InsufficientBytes)
        } else if bytes[pos] >= 32 {
            Ok((Simple::Unassigned(bytes[pos]), pos + 1))
        } else {
            Err(ErrorKind::UnexpectedValue)
        }
    } else {
        Err(ErrorKind::UnexpectedValue)
    }
}

/// Parses a float payload (minor 25/26/27): 2/4/8 big-endian bytes read
/// into a 64-bit accumulator that stands for the bit pattern of a double.
/// The 2- and 4-byte forms are zero-extended raw, not width-promoted; see
/// the decoder's documentation.
pub open spec fn spec_parse_float(bytes: Seq<u8>, pos: int, minor: u8) -> Result<
    (u64, int),
    ErrorKind,
> {
    if 25 <= minor <= 27 {
        let w = if minor == 25 {
            2int
        } else if minor == 26 {
            4int
        } else {
            8int
        };
        if pos + w <= bytes.len() {
            Ok((be_val(bytes, pos, w) as u64, pos + w))
        } else {
            Err(ErrorKind::InsufficientBytes)
        }
    } else {
        Err(ErrorKind::UnexpectedValue)
    }
}

/// Parses one complete value whose leading type byte stands at `pos`.
pub open spec fn spec_parse_val(bytes: Seq<u8>, pos: int) -> Result<(Val, int), ErrorKind>
    decreases bytes.len() - pos, 0int, 0int,
{
    if pos < 0 || pos >= bytes.len() {
        Err(ErrorKind::InsufficientBytes)
    } else {
        spec_parse_after_header(bytes, pos + 1, bytes[pos] / 32, bytes[pos] % 32)
    }
}

/// Parses the array payload selected by `minor`: the indefinite element
/// stream for minor 31, else a count through the unsigned rule and exactly
/// that many elements.
pub open spec fn spec_parse_array(bytes: Seq<u8>, pos: int, minor: u8) -> Result<
    (Seq<Val>, int),
    ErrorKind,
>
    decreases bytes.len() - pos, 2int, 0int,
{
    if minor == 31 {
        spec_parse_items_indef(bytes, pos)
    } else {
        match spec_parse_uint(bytes, pos, minor) {
            Ok((n, p)) => spec_parse_items(bytes, p, n),
            Err(e) => Err(e),
        }
    }
}

/// Parses the map payload selected by `minor`: the indefinite pair stream
/// for minor 31, else a pair count through the unsigned rule and exactly
/// that many pairs.
pub open spec fn spec_parse_table(bytes: Seq<u8>, pos: int, minor: u8) -> Result<
    (Seq<(Val, Val)>, int),
    ErrorKind,
>
    decreases bytes.len() - pos, 2int, 0int,
{
    if minor == 31 {
        spec_parse_pairs_indef(bytes, pos)
    } else {
        match spec_parse_uint(bytes, pos, minor) {
            Ok((n, p)) => spec_parse_pairs(bytes, p, n),
            Err(e) => Err(e),
        }
    }
}

/// Parses the body of one value whose leading type byte, already split into
/// `major` and `minor`, stood just before `pos`. A tag header (major 6)
/// consumes exactly one further leading byte and yields the tagged content
/// alone; the tag number itself is not retained.
pub open spec fn spec_parse_after_header(bytes: Seq<u8>, pos: int, major: u8, minor: u8) -> Result<
    (Val, int),
    ErrorKind,
>
    decreases bytes.len() - pos, 3int, 0int,
{
    if major == 0 {
        match spec_parse_uint(bytes, pos, minor) {
            Ok((x, p)) => Ok((Val::Unsigned(x), p)),
            Err(e) => Err(e),
        }
    } else if major == 1 {
        match spec_parse_negint(bytes, pos, minor) {
            Ok((x, p)) => Ok((Val::Negative(x), p)),
            Err(e) => Err(e),
        }
    } else if major == 2 {
        match spec_parse_bytestr(bytes, pos, minor) {
            Ok((b, p)) => Ok((Val::Bytes(b), p)),
            Err(e) => Err(e),
        }
    } else if major == 3 {
        match spec_parse_text(bytes, pos, minor) {
            Ok((t, p)) => Ok((Val::Text(t), p)),
            Err(e) => Err(e),
        }
    } else if major == 4 {
        match spec_parse_array(bytes, pos, minor) {
            Ok((vs, p)) => Ok((Val::Array(vs), p)),
            Err(e) => Err(e),
        }
    } else if major == 5 {
        match spec_parse_table(bytes, pos, minor) {
            Ok((ps, p)) => Ok((Val::Table(ps), p)),
            Err(e) => Err(e),
        }
    } else if major == 6 {
        spec_parse_val(bytes, pos)
    } else {
        if minor <= 24 {
            match spec_parse_simple(bytes, pos, minor) {
                Ok((s, p)) => Ok((Val::Simple(s), p)),
                Err(e) => Err(e),
            }
        } else {
            match spec_parse_float(bytes, pos, minor) {
                Ok((f, p)) => Ok((Val::Float(f), p)),
                Err(e) => Err(e),
            }
        }
    }
}

/// Parses exactly `n` consecutive values.
pub open spec fn spec_parse_items(bytes: Seq<u8>, pos: int, n: u64) -> Result<
    (Seq<Val>, int),
    ErrorKind,
>
    decreases bytes.len() - pos, 1int, n,
{
    if n == 0 {
        Ok((Seq::empty(), pos))
    } else if pos < 0 || pos >= bytes.len() {
        Err(ErrorKind::InsufficientBytes)
    } else {
        match spec_parse_val(bytes, pos) {
            Ok((v, p)) => {
                match spec_parse_items(bytes, step(pos, p, bytes.len() as int), (n - 1) as u64) {
                    Ok((vs, p2)) => Ok((seq![v] + vs, p2)),
                    Err(e) => Err(e),
                }
            },
            Err(e) => Err(e),
        }
    }
}

/// Parses consecutive values up to and including a break byte standing
/// where the next value's leading byte is expected.
pub open spec fn spec_parse_items_indef(bytes: Seq<u8>, pos: int) -> Result<
    (Seq<Val>, int),
    ErrorKind,
>
    decreases bytes.len() - pos, 1int, 0int,
{
    if pos < 0 || pos >= bytes.len() {
        Err(ErrorKind::InsufficientBytes)
    } else if bytes[pos] == 0xFF {
        Ok((Seq::empty(), pos + 1))
    } else {
        match spec_parse_val(bytes, pos) {
            Ok((v, p)) => {
                match spec_parse_items_indef(bytes, step(pos, p, bytes.len() as int)) {
                    Ok((vs, p2)) => Ok((seq![v] + vs, p2)),
                    Err(e) => Err(e),
                }
            },
            Err(e) => Err(e),
        }
    }
}

/// Parses exactly `n` consecutive key/value pairs.
pub open spec fn spec_parse_pairs(bytes: Seq<u8>, pos: int, n: u64) -> Result<
    (Seq<(Val, Val)>, int),
    ErrorKind,
>
    decreases bytes.len() - pos, 1int, n,
{
    if n == 0 {
        Ok((Seq::empty(), pos))
    } else if pos < 0 || pos >= bytes.len() {
        Err(ErrorKind::InsufficientBytes)
    } else {
        match spec_parse_val(bytes, pos) {
            Ok((k, p)) => {
                let vp = step(pos, p, bytes.len() as int);
                match spec_parse_val(bytes, vp) {
                    Ok((v, p2)) => {
                        let np = step(pos, p2, bytes.len() as int);
                        match spec_parse_pairs(bytes, np, (n - 1) as u64) {
                            Ok((ps, p3)) => Ok((seq![(k, v)] + ps, p3)),
                            Err(e) => Err(e),
                        }
                    },
                    Err(e) => Err(e),
                }
            },
            Err(e) => Err(e),
        }
    }
}

/// Parses consecutive key/value pairs up to and including a break byte
/// standing where the next key's leading byte is expected.
pub open spec fn spec_parse_pairs_indef(bytes: Seq<u8>, pos: int) -> Result<
    (Seq<(Val, Val)>, int),
    ErrorKind,
>
    decreases bytes.len() - pos, 1int, 0int,
{
    if pos < 0 || pos >= bytes.len() {
        Err(ErrorKind::InsufficientBytes)
    } else if bytes[pos] == 0xFF {
        Ok((Seq::empty(), pos + 1))
    } else {
        match spec_parse_val(bytes, pos) {
            Ok((k, p)) => {
                let vp = step(pos, p, bytes.len() as int);
                match spec_parse_val(bytes, vp) {
                    Ok((v, p2)) => {
                        let np = step(pos, p2, bytes.len() as int);
                        match spec_parse_pairs_indef(bytes, np) {
                            Ok((ps, p3)) => Ok((seq![(k, v)] + ps, p3)),
                            Err(e) => Err(e),
                        }
                    },
                    Err(e) => Err(e),
                }
            },
            Err(e) => Err(e),
        }
    }
}

/// Parses either a break byte, consuming it and yielding nothing, or one
/// complete value: what the decoder reads at each slot of an
/// indefinite-length aggregate.
pub open spec fn spec_parse_next(bytes: Seq<u8>, pos: int) -> Result<(Option<Val>, int), ErrorKind> {
    if pos < 0 || pos >= bytes.len() {
        Err(ErrorKind::InsufficientBytes)
    } else if bytes[pos] == 0xFF {
        Ok((None, pos + 1))
    } else {
        match spec_parse_val(bytes, pos) {
            Ok((v, p)) => Ok((Some(v), p)),
            Err(e) => Err(e),
        }
    }
}

/// The pair sequence a map-shaped tree carries; empty for any other
/// shape.
pub open spec fn table_pairs(v: Val) -> Seq<(Val, Val)> {
    match v {
        Val::Table(ps) => ps,
        _ => Seq::empty(),
    }
}

/// The number of payload bytes the minimal-length header for `x` carries:
/// 0 when the value fits the five-bit immediate, else 1, 2, 4 or 8.
pub open spec fn min_len_width(x: u64) -> int {
    if x <= 23 {
        0
    } else if x <= 0xFF {
        1
    } else if x <= 0xFFFF {
        2
    } else if x <= 0xFFFFFFFF {
        4
    } else {
        8
    }
}

/// The minor code selecting a following payload of `w` bytes.
pub open spec fn width_minor(w: int) -> u8
    recommends
        w == 1 || w == 2 || w == 4 || w == 8,
{
    if w == 1 {
        24
    } else if w == 2 {
        25
    } else if w == 4 {
        26
    } else {
        27
    }
}

/// The `n` big-endian bytes of `x`, most significant first.
pub open spec fn be_bytes(x: u64, n: int) -> Seq<u8>
    decreases n,
{
    if n <= 0 {
        Seq::empty()
    } else {
        be_bytes(x / 256, n - 1).push((x % 256) as u8)
    }
}

/// The minimal-length header carrying major type `major` and compact value
/// `x`: one type byte, then the fewest payload bytes that can hold `x`.
///
/// A deliberate choice at the top width class: values above the 4-byte
/// range take the format's full 8-byte field under minor 27. An encoder
/// could instead keep a 4-byte field there, but this decoder reads minor
/// 27 as eight following bytes, so only the 8-byte field is
/// self-consistent, and the round-trip law depends on it.
pub open spec fn spec_header(major: u8, x: u64) -> Seq<u8>
    recommends
        major < 8,
{
    let w = min_len_width(x);
    if w == 0 {
        seq![(32 * major + x) as u8]
    } else {
        seq![(32 * major + width_minor(w)) as u8] + be_bytes(x, w)
    }
}

/// The encoding of a simple value. The four named values and the unassigned
/// codes below 20 take one byte; every other code takes the two-byte
/// extended form. Codes 20..=31 have no well-formed encoding in the format,
/// so their two-byte form is one the decoder rejects.
pub open spec fn spec_encode_simple(s: Simple) -> Seq<u8> {
    match s {
        Simple::False => seq![0xF4u8],
        Simple::True => seq![0xF5u8],
        Simple::Null => seq![0xF6u8],
        Simple::Undefined => seq![0xF7u8],
        Simple::Unassigned(x) => if x < 20 {
            seq![(0xE0 + x) as u8]
        } else {
            seq![0xF8u8, x]
        },
    }
}

/// The minimal-length, definite-length encoding of a value.
pub open spec fn spec_encode_val(v: Val) -> Seq<u8>
    decreases v, 0int,
{
    match v {
        Val::Unsigned(x) => spec_header(0, x),
        Val::Negative(n) => spec_header(1, neg_rep(n)),
        Val::Bytes(b) => spec_header(2, b.len() as u64) + b,
        Val::Text(t) => spec_header(3, encode_utf8(t).len() as u64) + encode_utf8(t),
        Val::Array(vs) => spec_header(4, vs.len() as u64) + spec_encode_items(vs),
        Val::Table(ps) => spec_header(5, ps.len() as u64) + spec_encode_pairs(ps),
        Val::Float(bits) => seq![0xFBu8] + be_bytes(bits, 8),
        Val::Simple(s) => spec_encode_simple(s),
    }
}

/// The concatenated encodings of the values of `vs`, in order.
pub open spec fn spec_encode_items(vs: Seq<Val>) -> Seq<u8>
    decreases vs, 0int,
{
    if vs.len() == 0 {
        Seq::empty()
    } else {
        spec_encode_val(vs[0]) + spec_encode_items(vs.subrange(1, vs.len() as int))
    }
}

/// The encoding of one key/value pair: key first.
pub open spec fn spec_encode_pair(p: (Val, Val)) -> Seq<u8>
    decreases p, 1int,
{
    spec_encode_val(p.0) + spec_encode_val(p.1)
}

/// The concatenated encodings of the pairs of `ps`, in order.
pub open spec fn spec_encode_pairs(ps: Seq<(Val, Val)>) -> Seq<u8>
    decreases ps, 2int,
{
    if ps.len() == 0 {
        Seq::empty()
    } else {
        spec_encode_pair(ps[0]) + spec_encode_pairs(ps.subrange(1, ps.len() as int))
    }
}

/// The number of nodes of a value tree: the termination measure of the
/// encoder's recursion.
pub open spec fn val_size(v: Val) -> nat
    decreases v, 0int,
{
    match v {
        Val::Array(vs) => 1 + vals_size(vs),
        Val::Table(ps) => 1 + pairs_size(ps),
        _ => 1,
    }
}

/// The total node count of a sequence of values.
pub open spec fn vals_size(vs: Seq<Val>) -> nat
    decreases vs, 0int,
{
    if vs.len() == 0 {
        0
    } else {
        val_size(vs[0]) + vals_size(vs.subrange(1, vs.len() as int))
    }
}

/// The node count of one pair.
pub open spec fn pair_size(p: (Val, Val)) -> nat
    decreases p, 1int,
{
    val_size(p.0) + val_size(p.1)
}

/// The total node count of a sequence of pairs.
pub open spec fn pairs_size(ps: Seq<(Val, Val)>) -> nat
    decreases ps, 2int,
{
    if ps.len() == 0 {
        0
    } else {
        pair_size(ps[0]) + pairs_size(ps.subrange(1, ps.len() as int))
    }
}

/// An element counts no more nodes than its whole sequence.
pub proof fn lemma_vals_size_elem(vs: Seq<Val>, i: int)
    requires
        0 <= i < vs.len(),
    ensures
        val_size(vs[i]) <= vals_size(vs),
    decreases vs.len(),
{
    if i > 0 {
        lemma_vals_size_elem(vs.subrange(1, vs.len() as int), i - 1);
    }
}

/// A pair counts no more nodes than its whole sequence.
pub proof fn lemma_pairs_size_elem(ps: Seq<(Val, Val)>, i: int)
    requires
        0 <= i < ps.len(),
    ensures
        pair_size(ps[i]) <= pairs_size(ps),
    decreases ps.len(),
{
    if i > 0 {
        lemma_pairs_size_elem(ps.subrange(1, ps.len() as int), i - 1);
    }
}

/// Appending a value appends its encoding.
pub proof fn lemma_encode_items_push(s: Seq<Val>, v: Val)
    ensures
        spec_encode_items(s.push(v)) == spec_encode_items(s) + spec_encode_val(v),
    decreases s.len(),
{
    reveal_with_fuel(spec_encode_items, 3);
    if s.len() == 0 {
        assert(s.push(v)[0] == v);
        assert(s.push(v).subrange(1, 1) =~= Seq::<Val>::empty());
        assert(spec_encode_val(v) + Seq::<u8>::empty() =~= spec_encode_val(v));
        assert(Seq::<u8>::empty() + spec_encode_val(v) =~= spec_encode_val(v));
    } else {
        let tail = s.subrange(1, s.len() as int);
        lemma_encode_items_push(tail, v);
        assert(s.push(v).subrange(1, s.push(v).len() as int) =~= tail.push(v));
        assert(s.push(v)[0] == s[0]);
        assert(spec_encode_items(s.push(v)) == spec_encode_val(s[0]) + spec_encode_items(
            tail.push(v),
        ));
        assert(spec_encode_items(s) == spec_encode_val(s[0]) + spec_encode_items(tail));
        assert(spec_encode_val(s[0]) + (spec_encode_items(tail) + spec_encode_val(v)) =~= (
        spec_encode_val(s[0]) + spec_encode_items(tail)) + spec_encode_val(v));
    }
}

/// Appending a pair appends its encoding.
pub proof fn lemma_encode_pairs_push(s: Seq<(Val, Val)>, p: (Val, Val))
    ensures
        spec_encode_pairs(s.push(p)) == spec_encode_pairs(s) + spec_encode_pair(p),
    decreases s.len(),
{
    reveal_with_fuel(spec_encode_pairs, 3);
    if s.len() == 0 {
        assert(s.push(p)[0] == p);
        assert(s.push(p).subrange(1, 1) =~= Seq::<(Val, Val)>::empty());
        assert(spec_encode_pair(p) + Seq::<u8>::empty() =~= spec_encode_pair(p));
        assert(Seq::<u8>::empty() + spec_encode_pair(p) =~= spec_encode_pair(p));
    } else {
        let tail = s.subrange(1, s.len() as int);
        lemma_encode_pairs_push(tail, p);
        assert(s.push(p).subrange(1, s.push(p).len() as int) =~= tail.push(p));
        assert(s.push(p)[0] == s[0]);
        assert(spec_encode_pairs(s.push(p)) == spec_encode_pair(s[0]) + spec_encode_pairs(
            tail.push(p),
        ));
        assert(spec_encode_pairs(s) == spec_encode_pair(s[0]) + spec_encode_pairs(tail));
        assert(spec_encode_pair(s[0]) + (spec_encode_pairs(tail) + spec_encode_pair(p)) =~= (
        spec_encode_pair(s[0]) + spec_encode_pairs(tail)) + spec_encode_pair(p));
    }
}

/// Whether `v` round-trips through the wire: every aggregate length fits the
/// 64-bit length field, and no simple value carries one of the reserved
/// codes 20..=31, which have no well-formed encoding.
pub open spec fn encodable(v: Val) -> bool
    decreases v, 0int,
{
    match v {
        Val::Bytes(b) => b.len() < 0x10000000000000000,
        Val::Text(t) => encode_utf8(t).len() < 0x10000000000000000,
        Val::Array(vs) => vs.len() < 0x10000000000000000 && all_encodable(vs),
        Val::Table(ps) => ps.len() < 0x10000000000000000 && all_pairs_encodable(ps),
        Val::Simple(s) => match s {
            Simple::Unassigned(x) => x < 20 || x > 31,
            _ => true,
        },
        _ => true,
    }
}

/// Whether every value of `vs` is encodable.
pub open spec fn all_encodable(vs: Seq<Val>) -> bool
    decreases vs, 0int,
{
    if vs.len() == 0 {
        true
    } else {
        encodable(vs[0]) && all_encodable(vs.subrange(1, vs.len() as int))
    }
}

/// Whether both sides of one pair are encodable.
pub open spec fn pair_encodable(p: (Val, Val)) -> bool
    decreases p, 1int,
{
    encodable(p.0) && encodable(p.1)
}

/// Whether both sides of every pair of `ps` are encodable.
pub open spec fn all_pairs_encodable(ps: Seq<(Val, Val)>) -> bool
    decreases ps, 2int,
{
    if ps.len() == 0 {
        true
    } else {
        pair_encodable(ps[0]) && all_pairs_encodable(ps.subrange(1, ps.len() as int))
    }
}

} // verus!
