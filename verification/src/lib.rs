//! A CBOR (Concise Binary Object Representation) codec: a byte-level decoder
//! from a binary stream to a dynamic [`value::Value`] tree, a byte-level
//! encoder back to minimal-length definite form, and a generic conversion
//! layer between the tree and native typed containers.

pub mod laws;
pub mod model;
pub mod value;

pub use value::FromValue;
pub use value::KeyVal;
pub use value::Simple;
pub use value::ToValue;
pub use value::Value;
pub use value::ValueInto;

use vstd::prelude::*;

use crate::model::{
    be_val, lemma_be_val_bound, lemma_pow256_mono, lemma_with_prefix_assoc, pow256,
    spec_parse_after_header, spec_parse_array, spec_parse_bytestr, spec_parse_chunks,
    spec_parse_float, spec_parse_items, spec_parse_items_indef, spec_parse_negint,
    spec_parse_next, spec_parse_pairs, spec_parse_pairs_indef, spec_parse_simple,
    spec_parse_table, spec_parse_text, spec_parse_uint, spec_parse_val, with_prefix, Val,
};
use crate::value::types::{
    kv_view, lemma_elem_views_index, lemma_pair_views_index, pair_views_of, value_view, views_of,
};

verus! {

/// The two failure classes a decode can report.
#[derive(Clone, Copy, Debug, PartialEq, Eq, Structural)]
pub enum ErrorKind {
    /// A structurally invalid type tag, out-of-range minor field, or other
    /// malformed header.
    UnexpectedValue,
    /// The stream ended before an expected payload was fully consumed.
    InsufficientBytes,
}

/// The error type carried by every failing decode.
#[derive(Clone, Copy, Debug, PartialEq, Eq, Structural)]
pub struct CborError {
    pub kind: ErrorKind,
}

impl CborError {
    pub fn new(kind: ErrorKind) -> (e: CborError)
        ensures
            e.kind == kind,
    {
        CborError { kind }
    }

    pub fn new_err<T>(kind: ErrorKind) -> (r: Result<T, CborError>)
        ensures
            r matches Err(e) && e.kind == kind,
    {
        Err(CborError::new(kind))
    }
}

/// Splits a leading type byte into its major type (top 3 bits) and its
/// minor / additional-information field (low 5 bits).
pub fn read_type(b: u8) -> (r: (u8, u8))
    ensures
        r.0 == b / 32,
        r.1 == b % 32,
        r.0 < 8 && r.1 < 32,
{
    let major: u8 = b >> 5;
    let minor: u8 = b & 31;
    proof {
        assert(b >> 5 == b / 32 && b & 31 == b % 32 && b / 32 < 8) by (bit_vector);
    }
    (major, minor)
}

/// Reads `w` big-endian bytes into an accumulator and advances the cursor.
fn read_be(bytes: &[u8], pos: &mut usize, w: usize) -> (r: u64)
    requires
        w <= 8,
        *old(pos) + w <= bytes@.len(),
    ensures
        *final(pos) == *old(pos) + w,
        r == be_val(bytes@, *old(pos) as int, w as int),
{
    let slice_len = bytes.len();
    let ghost p0 = *pos as int;
    let mut value: u64 = 0;
    let mut i: usize = 0;
    while i < w
        invariant
            i <= w,
            w <= 8,
            *pos == p0,
            p0 + w <= bytes@.len(),
            bytes@.len() == slice_len,
            0 <= p0,
            value == be_val(bytes@, p0, i as int),
            value < pow256(i as int),
        decreases w - i,
    {
        proof {
            lemma_be_val_bound(bytes@, p0, i as int);
            lemma_pow256_mono(i as int, 7);
            reveal_with_fuel(pow256, 9);
        }
        value = value * 256 + (bytes[*pos + i] as u64);
        i = i + 1;
    }
    *pos = *pos + w;
    proof {
        lemma_be_val_bound(bytes@, p0, w as int);
    }
    value
}

/// Parses the variable-width unsigned payload selected by the minor field
/// of a header byte already consumed.
pub fn parse_unsigned_int(minor: u8, bytes: &[u8], pos: &mut usize) -> (r: Result<u64, CborError>)
    requires
        *old(pos) <= bytes@.len(),
    ensures
        *old(pos) <= *final(pos) <= bytes@.len(),
        match r {
            Ok(x) => spec_parse_uint(bytes@, *old(pos) as int, minor) == Ok::<(u64, int), ErrorKind>(
                (x, *final(pos) as int),
            ),
            Err(e) => spec_parse_uint(bytes@, *old(pos) as int, minor) == Err::<
                (u64, int),
                ErrorKind,
            >(e.kind) && *final(pos) == *old(pos),
        },
{
    if minor <= 23 {
        return Ok(minor as u64);
    }
    if minor > 27 {
        return CborError::new_err(ErrorKind::UnexpectedValue);
    }
    let w: usize = if minor == 24 {
        1
    } else if minor == 25 {
        2
    } else if minor == 26 {
        4
    } else {
        8
    };
    if bytes.len() - *pos < w {
        return CborError::new_err(ErrorKind::InsufficientBytes);
    }
    let value = read_be(bytes, pos, w);
    proof {
        lemma_be_val_bound(bytes@, *old(pos) as int, w as int);
        lemma_pow256_mono(w as int, 8);
        reveal_with_fuel(pow256, 9);
    }
    Ok(value)
}

/// Parses a negative-integer payload: `-1 - u` for the unsigned payload
/// `u`, wrapped into `i64` exactly as [`neg_of`] says for `u >= 2^63`.
pub fn parse_negative_int(minor: u8, bytes: &[u8], pos: &mut usize) -> (r: Result<i64, CborError>)
    requires
        *old(pos) <= bytes@.len(),
    ensures
        *old(pos) <= *final(pos) <= bytes@.len(),
        match r {
            Ok(x) => spec_parse_negint(bytes@, *old(pos) as int, minor) == Ok::<
                (i64, int),
                ErrorKind,
            >((x, *final(pos) as int)),
            Err(e) => spec_parse_negint(bytes@, *old(pos) as int, minor) == Err::<
                (i64, int),
                ErrorKind,
            >(e.kind),
        },
{
    match parse_unsigned_int(minor, bytes, pos) {
        Ok(val) => {
            if val < 0x8000000000000000 {
                Ok(-1 - (val as i64))
            } else {
                Ok((u64::MAX - val) as i64)
            }
        },
        Err(e) => Err(e),
    }
}

/// Parses a byte-string payload: minor 31 reads chunks up to a break byte,
/// concatenating their payloads; any other minor reads an exact count.
pub fn parse_byte_string(minor: u8, bytes: &[u8], pos: &mut usize) -> (r: Result<
    Vec<u8>,
    CborError,
>)
    requires
        *old(pos) <= bytes@.len(),
    ensures
        *old(pos) <= *final(pos) <= bytes@.len(),
        match r {
            Ok(v) => spec_parse_bytestr(bytes@, *old(pos) as int, minor) == Ok::<
                (Seq<u8>, int),
                ErrorKind,
            >((v@, *final(pos) as int)),
            Err(e) => spec_parse_bytestr(bytes@, *old(pos) as int, minor) == Err::<
                (Seq<u8>, int),
                ErrorKind,
            >(e.kind),
        },
{
    let ghost p0 = *pos as int;
    if minor == 31 {
        let mut out: Vec<u8> = Vec::new();
        loop
            invariant
                minor == 31,
                p0 == *old(pos) as int,
                p0 <= *pos as int <= bytes@.len(),
                spec_parse_chunks(bytes@, p0) == with_prefix(
                    out@,
                    spec_parse_chunks(bytes@, *pos as int),
                ),
            decreases bytes@.len() - *pos,
        {
            if *pos == bytes.len() {
                return CborError::new_err(ErrorKind::InsufficientBytes);
            }
            let b = bytes[*pos];
            if b == 0xFF {
                *pos = *pos + 1;
                proof {
                    assert(out@ + Seq::<u8>::empty() =~= out@);
                }
                return Ok(out);
            }
            let (_chunk_major, chunk_minor) = read_type(b);
            let ghost cur = *pos as int;
            *pos = *pos + 1;
            match parse_unsigned_int(chunk_minor, bytes, pos) {
                Ok(clen) => {
                    if ((bytes.len() - *pos) as u64) < clen {
                        return CborError::new_err(ErrorKind::InsufficientBytes);
                    }
                    let end = *pos + (clen as usize);
                    let mut chunk = vstd::slice::slice_to_vec(
                        vstd::slice::slice_subrange(bytes, *pos, end),
                    );
                    let ghost chunk_seq = chunk@;
                    let ghost out_old = out@;
                    out.append(&mut chunk);
                    *pos = end;
                    proof {
                        lemma_with_prefix_assoc(
                            out_old,
                            chunk_seq,
                            spec_parse_chunks(bytes@, *pos as int),
                        );
                        assert(out_old + chunk_seq =~= out@);
                    }
                },
                Err(e) => {
                    return Err(e);
                },
            }
        }
    } else {
        match parse_unsigned_int(minor, bytes, pos) {
            Ok(count) => {
                if ((bytes.len() - *pos) as u64) < count {
                    return CborError::new_err(ErrorKind::InsufficientBytes);
                }
                let end = *pos + (count as usize);
                let out = vstd::slice::slice_to_vec(vstd::slice::slice_subrange(bytes, *pos, end));
                *pos = end;
                Ok(out)
            },
            Err(e) => Err(e),
        }
    }
}

/// Relies on `String::from_utf8`: returns the string holding exactly the
/// given bytes when they are valid UTF-8, and nothing when they are not.
#[verifier::external_body]
fn string_from_utf8(v: Vec<u8>) -> (r: Option<String>)
    ensures
        match r {
            Some(s) => vstd::utf8::valid_utf8(v@) && s@ == vstd::utf8::decode_utf8(v@),
            None => !vstd::utf8::valid_utf8(v@),
        },
{
    match String::from_utf8(v) {
        Ok(s) => Some(s),
        Err(_) => None,
    }
}

/// Parses a text-string payload: the byte-string rule, then UTF-8
/// validation. Invalid UTF-8 is reported as a malformed item.
pub fn parse_utf8_string(minor: u8, bytes: &[u8], pos: &mut usize) -> (r: Result<
    String,
    CborError,
>)
    requires
        *old(pos) <= bytes@.len(),
    ensures
        *old(pos) <= *final(pos) <= bytes@.len(),
        match r {
            Ok(s) => spec_parse_text(bytes@, *old(pos) as int, minor) == Ok::<
                (Seq<char>, int),
                ErrorKind,
            >((s@, *final(pos) as int)),
            Err(e) => spec_parse_text(bytes@, *old(pos) as int, minor) == Err::<
                (Seq<char>, int),
                ErrorKind,
            >(e.kind),
        },
{
    match parse_byte_string(minor, bytes, pos) {
        Ok(binary_val) => match string_from_utf8(binary_val) {
            Some(s) => Ok(s),
            None => CborError::new_err(ErrorKind::UnexpectedValue),
        },
        Err(e) => Err(e),
    }
}

/// Parses a simple value (major 7): minor 0..=19 an unassigned code,
/// 20..=23 the four named values, 24 an extended code in one following byte
/// valid only at 32 and above; any other minor is malformed.
pub fn parse_simple(minor: u8, bytes: &[u8], pos: &mut usize) -> (r: Result<Simple, CborError>)
    requires
        *old(pos) <= bytes@.len(),
    ensures
        *old(pos) <= *final(pos) <= bytes@.len(),
        match r {
            Ok(s) => spec_parse_simple(bytes@, *old(pos) as int, minor) == Ok::<
                (Simple, int),
                ErrorKind,
            >((s, *final(pos) as int)),
            Err(e) => spec_parse_simple(bytes@, *old(pos) as int, minor) == Err::<
                (Simple, int),
                ErrorKind,
            >(e.kind),
        },
{
    if minor <= 19 {
        Ok(Simple::Unassigned(minor))
    } else if minor == 20 {
        Ok(Simple::False)
    } else if minor == 21 {
        Ok(Simple::True)
    } else if minor == 22 {
        Ok(Simple::Null)
    } else if minor == 23 {
        Ok(Simple::Undefined)
    } else if minor == 24 {
        if *pos == bytes.len() {
            return CborError::new_err(ErrorKind::InsufficientBytes);
        }
        let x = bytes[*pos];
        if x >= 32 {
            *pos = *pos + 1;
            Ok(Simple::Unassigned(x))
        } else {
            CborError::new_err(ErrorKind::UnexpectedValue)
        }
    } else {
        CborError::new_err(ErrorKind::UnexpectedValue)
    }
}

/// Parses a float payload (minor 25/26/27): 2/4/8 big-endian bytes into a
/// 64-bit accumulator standing for the bit pattern of an IEEE-754 double.
/// The 2- and 4-byte forms are zero-extended raw, not width-promoted, so
/// only the 8-byte form carries a numerically faithful double.
pub fn parse_float(minor: u8, bytes: &[u8], pos: &mut usize) -> (r: Result<u64, CborError>)
    requires
        *old(pos) <= bytes@.len(),
    ensures
        *old(pos) <= *final(pos) <= bytes@.len(),
        match r {
            Ok(f) => spec_parse_float(bytes@, *old(pos) as int, minor) == Ok::<
                (u64, int),
                ErrorKind,
            >((f, *final(pos) as int)),
            Err(e) => spec_parse_float(bytes@, *old(pos) as int, minor) == Err::<
                (u64, int),
                ErrorKind,
            >(e.kind),
        },
{
    if minor < 25 || minor > 27 {
        return CborError::new_err(ErrorKind::UnexpectedValue);
    }
    let w: usize = if minor == 25 {
        2
    } else if minor == 26 {
        4
    } else {
        8
    };
    if bytes.len() - *pos < w {
        return CborError::new_err(ErrorKind::InsufficientBytes);
    }
    let value = read_be(bytes, pos, w);
    proof {
        lemma_be_val_bound(bytes@, *old(pos) as int, w as int);
        lemma_pow256_mono(w as int, 8);
        reveal_with_fuel(pow256, 9);
    }
    Ok(value)
}

/// Parses an array payload: indefinite (minor 31) decodes values one at a
/// time until a break byte appears where the next element's leading byte is
/// expected; definite reads a count then decodes exactly that many values.
pub fn parse_array(minor: u8, bytes: &[u8], pos: &mut usize) -> (r: Result<Vec<Value>, CborError>)
    requires
        *old(pos) <= bytes@.len(),
    ensures
        *old(pos) <= *final(pos) <= bytes@.len(),
        match r {
            Ok(arr) => spec_parse_array(bytes@, *old(pos) as int, minor) == Ok::<
                (Seq<Val>, int),
                ErrorKind,
            >((views_of(arr), *final(pos) as int)),
            Err(e) => spec_parse_array(bytes@, *old(pos) as int, minor) == Err::<
                (Seq<Val>, int),
                ErrorKind,
            >(e.kind),
        },
    decreases bytes@.len() - *pos, 2int,
{
    let ghost p0 = *pos as int;
    let mut arr: Vec<Value> = Vec::new();
    let ghost mut vs: Seq<Val> = Seq::empty();
    if minor == 31 {
        loop
            invariant
                minor == 31,
                p0 == *old(pos) as int,
                p0 <= *pos as int <= bytes@.len(),
                vs.len() == arr.len(),
                forall|i: int| 0 <= i < vs.len() ==> vs[i] == value_view(arr[i]),
                spec_parse_items_indef(bytes@, p0) == with_prefix(
                    vs,
                    spec_parse_items_indef(bytes@, *pos as int),
                ),
            decreases bytes@.len() - *pos,
        {
            match decode_next(bytes, pos) {
                Ok(Some(item)) => {
                    let ghost vs_old = vs;
                    let ghost cur = *pos as int;
                    proof {
                        vs = vs.push(item@);
                    }
                    arr.push(item);
                    proof {
                        lemma_with_prefix_assoc(
                            vs_old,
                            seq![item@],
                            spec_parse_items_indef(bytes@, *pos as int),
                        );
                        assert(vs_old + seq![item@] =~= vs);
                    }
                },
                Ok(None) => {
                    proof {
                        assert(vs + Seq::<Val>::empty() =~= vs);
                        lemma_elem_views_index(arr, arr.len() as int);
                        assert(views_of(arr) =~= vs);
                    }
                    return Ok(arr);
                },
                Err(e) => {
                    return Err(e);
                },
            }
        }
    } else {
        match parse_unsigned_int(minor, bytes, pos) {
            Ok(n) => {
                let ghost pstart = *pos as int;
                let mut k: u64 = 0;
                while k < n
                    invariant
                        minor != 31,
                        p0 == *old(pos) as int,
                        spec_parse_uint(bytes@, p0, minor) == Ok::<(u64, int), ErrorKind>(
                            (n, pstart),
                        ),
                        p0 <= pstart <= *pos as int <= bytes@.len(),
                        k <= n,
                        vs.len() == arr.len(),
                        forall|i: int| 0 <= i < vs.len() ==> vs[i] == value_view(arr[i]),
                        spec_parse_items(bytes@, pstart, n) == with_prefix(
                            vs,
                            spec_parse_items(bytes@, *pos as int, (n - k) as u64),
                        ),
                    decreases n - k,
                {
                    match decode_element(bytes, pos) {
                        Ok(item) => {
                            let ghost vs_old = vs;
                            proof {
                                vs = vs.push(item@);
                            }
                            arr.push(item);
                            k = k + 1;
                            proof {
                                lemma_with_prefix_assoc(
                                    vs_old,
                                    seq![item@],
                                    spec_parse_items(bytes@, *pos as int, (n - k) as u64),
                                );
                                assert(vs_old + seq![item@] =~= vs);
                            }
                        },
                        Err(e) => {
                            return Err(e);
                        },
                    }
                }
                proof {
                    assert(vs + Seq::<Val>::empty() =~= vs);
                    lemma_elem_views_index(arr, arr.len() as int);
                    assert(views_of(arr) =~= vs);
                }
                Ok(arr)
            },
            Err(e) => Err(e),
        }
    }
}

/// Parses a map payload: alternating key then value, with the same
/// indefinite/definite split as arrays; an indefinite map terminates on a
/// break byte read where a key was expected.
fn parse_map(minor: u8, bytes: &[u8], pos: &mut usize) -> (r: Result<Vec<KeyVal>, CborError>)
    requires
        *old(pos) <= bytes@.len(),
    ensures
        *old(pos) <= *final(pos) <= bytes@.len(),
        match r {
            Ok(m) => spec_parse_table(bytes@, *old(pos) as int, minor) == Ok::<
                (Seq<(Val, Val)>, int),
                ErrorKind,
            >((pair_views_of(m), *final(pos) as int)),
            Err(e) => spec_parse_table(bytes@, *old(pos) as int, minor) == Err::<
                (Seq<(Val, Val)>, int),
                ErrorKind,
            >(e.kind),
        },
    decreases bytes@.len() - *pos, 2int,
{
    let ghost p0 = *pos as int;
    let mut map: Vec<KeyVal> = Vec::new();
    let ghost mut ps: Seq<(Val, Val)> = Seq::empty();
    if minor == 31 {
        loop
            invariant
                minor == 31,
                p0 == *old(pos) as int,
                p0 <= *pos as int <= bytes@.len(),
                ps.len() == map.len(),
                forall|i: int| 0 <= i < ps.len() ==> ps[i] == kv_view(map[i]),
                spec_parse_pairs_indef(bytes@, p0) == with_prefix(
                    ps,
                    spec_parse_pairs_indef(bytes@, *pos as int),
                ),
            decreases bytes@.len() - *pos,
        {
            let ghost cur = *pos as int;
            match decode_next(bytes, pos) {
                Ok(Some(key)) => {
                    match decode_element(bytes, pos) {
                        Ok(val) => {
                            let ghost ps_old = ps;
                            proof {
                                ps = ps.push((key@, val@));
                            }
                            map.push(KeyVal { key, val });
                            proof {
                                lemma_with_prefix_assoc(
                                    ps_old,
                                    seq![(map[map.len() - 1].key@, map[map.len() - 1].val@)],
                                    spec_parse_pairs_indef(bytes@, *pos as int),
                                );
                                assert(ps_old + seq![ps[ps.len() - 1]] =~= ps);
                            }
                        },
                        Err(e) => {
                            return Err(e);
                        },
                    }
                },
                Ok(None) => {
                    proof {
                        assert(ps + Seq::<(Val, Val)>::empty() =~= ps);
                        lemma_pair_views_index(map, map.len() as int);
                        assert(pair_views_of(map) =~= ps);
                    }
                    return Ok(map);
                },
                Err(e) => {
                    return Err(e);
                },
            }
        }
    } else {
        match parse_unsigned_int(minor, bytes, pos) {
            Ok(n) => {
                let ghost pstart = *pos as int;
                let mut k: u64 = 0;
                while k < n
                    invariant
                        minor != 31,
                        p0 == *old(pos) as int,
                        spec_parse_uint(bytes@, p0, minor) == Ok::<(u64, int), ErrorKind>(
                            (n, pstart),
                        ),
                        p0 <= pstart <= *pos as int <= bytes@.len(),
                        k <= n,
                        ps.len() == map.len(),
                        forall|i: int| 0 <= i < ps.len() ==> ps[i] == kv_view(map[i]),
                        spec_parse_pairs(bytes@, pstart, n) == with_prefix(
                            ps,
                            spec_parse_pairs(bytes@, *pos as int, (n - k) as u64),
                        ),
                    decreases n - k,
                {
                    match decode_element(bytes, pos) {
                        Ok(key) => {
                            match decode_element(bytes, pos) {
                                Ok(val) => {
                                    let ghost ps_old = ps;
                                    proof {
                                        ps = ps.push((key@, val@));
                                    }
                                    map.push(KeyVal { key, val });
                                    k = k + 1;
                                    proof {
                                        lemma_with_prefix_assoc(
                                            ps_old,
                                            seq![ps[ps.len() - 1]],
                                            spec_parse_pairs(bytes@, *pos as int, (n - k) as u64),
                                        );
                                        assert(ps_old + seq![ps[ps.len() - 1]] =~= ps);
                                    }
                                },
                                Err(e) => {
                                    return Err(e);
                                },
                            }
                        },
                        Err(e) => {
                            return Err(e);
                        },
                    }
                }
                proof {
                    assert(ps + Seq::<(Val, Val)>::empty() =~= ps);
                    lemma_pair_views_index(map, map.len() as int);
                    assert(pair_views_of(map) =~= ps);
                }
                Ok(map)
            },
            Err(e) => Err(e),
        }
    }
}

/// Parses the body of one value whose leading type byte, already consumed,
/// is `type_byte`. A tag header (major 6) reads exactly one further leading
/// byte and decodes the tagged content with it, discarding the tag: a tag
/// number that would need trailing bytes of its own is not skipped over.
fn parse_value(bytes: &[u8], pos: &mut usize, type_byte: u8) -> (r: Result<Value, CborError>)
    requires
        *old(pos) <= bytes@.len(),
    ensures
        *old(pos) <= *final(pos) <= bytes@.len(),
        match r {
            Ok(v) => spec_parse_after_header(
                bytes@,
                *old(pos) as int,
                type_byte / 32,
                type_byte % 32,
            ) == Ok::<(Val, int), ErrorKind>((v@, *final(pos) as int)),
            Err(e) => spec_parse_after_header(
                bytes@,
                *old(pos) as int,
                type_byte / 32,
                type_byte % 32,
            ) == Err::<(Val, int), ErrorKind>(e.kind),
        },
    decreases bytes@.len() - *pos, 3int,
{
    let (major, minor) = read_type(type_byte);
    if major == 0 {
        match parse_unsigned_int(minor, bytes, pos) {
            Ok(x) => Ok(Value::Unsigned(x)),
            Err(e) => Err(e),
        }
    } else if major == 1 {
        match parse_negative_int(minor, bytes, pos) {
            Ok(x) => Ok(Value::Negative(x)),
            Err(e) => Err(e),
        }
    } else if major == 2 {
        match parse_byte_string(minor, bytes, pos) {
            Ok(b) => Ok(Value::ByteString(b)),
            Err(e) => Err(e),
        }
    } else if major == 3 {
        match parse_utf8_string(minor, bytes, pos) {
            Ok(s) => Ok(Value::Utf8String(s)),
            Err(e) => Err(e),
        }
    } else if major == 4 {
        match parse_array(minor, bytes, pos) {
            Ok(a) => Ok(Value::Array(a)),
            Err(e) => Err(e),
        }
    } else if major == 5 {
        match parse_map(minor, bytes, pos) {
            Ok(m) => Ok(Value::Table(m)),
            Err(e) => Err(e),
        }
    } else if major == 6 {
        if *pos == bytes.len() {
            return CborError::new_err(ErrorKind::InsufficientBytes);
        }
        let tb = bytes[*pos];
        *pos = *pos + 1;
        parse_value(bytes, pos, tb)
    } else {
        if minor <= 24 {
            match parse_simple(minor, bytes, pos) {
                Ok(s) => Ok(Value::Simple(s)),
                Err(e) => Err(e),
            }
        } else {
            match parse_float(minor, bytes, pos) {
                Ok(f) => Ok(Value::Float(f)),
                Err(e) => Err(e),
            }
        }
    }
}

/// Reads one leading byte and parses one value with it, or consumes a
/// break byte and yields nothing: the read made at each slot of an
/// indefinite-length aggregate.
fn decode_next(bytes: &[u8], pos: &mut usize) -> (r: Result<Option<Value>, CborError>)
    requires
        *old(pos) <= bytes@.len(),
    ensures
        *old(pos) <= *final(pos) <= bytes@.len(),
        match r {
            Ok(Some(v)) => *old(pos) < *final(pos) && spec_parse_next(bytes@, *old(pos) as int)
                == Ok::<(Option<Val>, int), ErrorKind>((Some(v@), *final(pos) as int)),
            Ok(None) => *old(pos) < *final(pos) && spec_parse_next(bytes@, *old(pos) as int)
                == Ok::<(Option<Val>, int), ErrorKind>((None, *final(pos) as int)),
            Err(e) => spec_parse_next(bytes@, *old(pos) as int) == Err::<
                (Option<Val>, int),
                ErrorKind,
            >(e.kind),
        },
    decreases bytes@.len() - *pos, 0int,
{
    if *pos == bytes.len() {
        return CborError::new_err(ErrorKind::InsufficientBytes);
    }
    let tb = bytes[*pos];
    *pos = *pos + 1;
    if tb == 0xFF {
        return Ok(None);
    }
    match parse_value(bytes, pos, tb) {
        Ok(v) => Ok(Some(v)),
        Err(e) => Err(e),
    }
}

/// Reads one leading byte and parses one complete value with it.
fn decode_element(bytes: &[u8], pos: &mut usize) -> (r: Result<Value, CborError>)
    requires
        *old(pos) <= bytes@.len(),
    ensures
        *old(pos) <= *final(pos) <= bytes@.len(),
        match r {
            Ok(v) => *old(pos) < *final(pos) && spec_parse_val(bytes@, *old(pos) as int) == Ok::<
                (Val, int),
                ErrorKind,
            >((v@, *final(pos) as int)),
            Err(e) => spec_parse_val(bytes@, *old(pos) as int) == Err::<(Val, int), ErrorKind>(
                e.kind,
            ),
        },
    decreases bytes@.len() - *pos, 0int,
{
    if *pos == bytes.len() {
        return CborError::new_err(ErrorKind::InsufficientBytes);
    }
    let tb = bytes[*pos];
    *pos = *pos + 1;
    parse_value(bytes, pos, tb)
}

/// Decodes exactly one value from the bytes at the cursor, advancing the
/// cursor past it. Bytes after the first complete value are not touched.
pub fn decode_iter(bytes: &[u8], pos: &mut usize) -> (r: Result<Value, CborError>)
    requires
        *old(pos) <= bytes@.len(),
    ensures
        *old(pos) <= *final(pos) <= bytes@.len(),
        match r {
            Ok(v) => spec_parse_val(bytes@, *old(pos) as int) == Ok::<(Val, int), ErrorKind>(
                (v@, *final(pos) as int),
            ),
            Err(e) => spec_parse_val(bytes@, *old(pos) as int) == Err::<(Val, int), ErrorKind>(
                e.kind,
            ),
        },
{
    decode_element(bytes, pos)
}

/// Decodes exactly one value from the front of the stream. Trailing bytes
/// are ignored.
///
/// No allocation ever exceeds what the input itself can back: every length
/// field is checked against the remaining input before any payload is
/// gathered. The recursion depth is bounded by the input length, since
/// every descent first consumes at least one byte; callers that must bound
/// stack use bound the size of the input they hand in.
pub fn decode(bytes: &[u8]) -> (r: Result<Value, CborError>)
    ensures
        match r {
            Ok(v) => spec_parse_val(bytes@, 0) matches Ok(t) && t.0 == v@,
            Err(e) => spec_parse_val(bytes@, 0) == Err::<(Val, int), ErrorKind>(e.kind),
        },
{
    let mut pos: usize = 0;
    decode_iter(bytes, &mut pos)
}

/// [`decode`] behind an explicit, configurable resource limit: the guard
/// against adversarial input. One leading byte is consumed before every
/// recursive descent, so the decoder's recursion depth, like its
/// allocations, is bounded by the input length; refusing inputs longer
/// than `limit` therefore bounds stack and memory by the caller's choice.
/// An input over the limit is refused outright as `None`, before any
/// parsing; within the limit the decode proceeds exactly as [`decode`].
pub fn decode_bounded(bytes: &[u8], limit: usize) -> (r: Option<Result<Value, CborError>>)
    ensures
        r is Some <==> bytes@.len() <= limit,
        match r {
            Some(Ok(v)) => spec_parse_val(bytes@, 0) matches Ok(t) && t.0 == v@,
            Some(Err(e)) => spec_parse_val(bytes@, 0) == Err::<(Val, int), ErrorKind>(e.kind),
            None => bytes@.len() > limit,
        },
{
    if bytes.len() > limit {
        return None;
    }
    Some(decode(bytes))
}

/// Decodes exactly one value from the front of the slice. Trailing bytes
/// are ignored.
pub fn decode_slice(bytes: &[u8]) -> (r: Result<Value, CborError>)
    ensures
        match r {
            Ok(v) => spec_parse_val(bytes@, 0) matches Ok(t) && t.0 == v@,
            Err(e) => spec_parse_val(bytes@, 0) == Err::<(Val, int), ErrorKind>(e.kind),
        },
{
    let mut pos: usize = 0;
    decode_iter(bytes, &mut pos)
}

/// Decodes one value and converts it to the requested type: `Err` when the
/// bytes are malformed, `Ok(None)` when the decoded tree's shape does not
/// fit the target, `Ok(Some(..))` otherwise.
pub fn decode_to<T: crate::value::FromValue>(bytes: &[u8]) -> (r: Result<Option<T>, CborError>)
    ensures
        match r {
            Ok(opt) => spec_parse_val(bytes@, 0) matches Ok(t) && (opt is Some
                <==> T::convertible(t.0)) && (opt matches Some(x) ==> T::converted(t.0, x)),
            Err(e) => spec_parse_val(bytes@, 0) == Err::<(Val, int), ErrorKind>(e.kind),
        },
{
    match decode(bytes) {
        Ok(v) => Ok(T::from_value(v)),
        Err(e) => Err(e),
    }
}

/// Encodes anything a [`Value`] can be built from. Where the conversion
/// into a value has an exact specification, the output is pinned to the
/// encoding of that value.
pub fn encode<V>(v: V) -> (r: Vec<u8>) where Value: From<V>,
    ensures
        <Value as vstd::std_specs::convert::FromSpec<V>>::obeys_from_spec() ==> r@
            == crate::model::spec_encode_val(
            <Value as vstd::std_specs::convert::FromSpec<V>>::from_spec(v)@,
        ),
{
    Value::from(v).encode()
}

/// Like [`encode`] but takes a reference, through the [`ToValue`]
/// capability: the output is the encoding of a value the source stands
/// for.
pub fn encode_ref<V>(v: &V) -> (r: Vec<u8>) where V: crate::value::ToValue,
    ensures
        exists|m: Val| #[trigger] v.to_val_rel(m) && r@ == crate::model::spec_encode_val(m),
{
    v.to_value().encode()
}

/// Like [`encode`] but takes a dynamic trait object.
pub fn encode_dyn(v: &dyn crate::value::ToValue) -> (r: Vec<u8>)
    ensures
        exists|m: Val| #[trigger] v.to_val_rel(m) && r@ == crate::model::spec_encode_val(m),
{
    v.to_value().encode()
}

} // verus!
