use cborg::ErrorKind;
use cborg::KeyVal;
use cborg::Simple;
use cborg::Value;

/// Round trip: decoding the encoding of a tree of definite-length
/// aggregates gives the tree back.
#[test]
fn round_trip_nested() {
    let v = Value::Table(vec![
        KeyVal {
            key: Value::Unsigned(0),
            val: Value::Array(vec![
                Value::Unsigned(0),
                Value::Negative(-1),
                Value::ByteString(vec![]),
                Value::Utf8String(String::new()),
                Value::Array(vec![]),
                Value::Table(vec![]),
                Value::Float((1.5f64).to_bits()),
                Value::Simple(Simple::Null),
                Value::Simple(Simple::Unassigned(5)),
                Value::Simple(Simple::Unassigned(200)),
            ]),
        },
        KeyVal {
            key: Value::Array(vec![Value::Utf8String("key".to_string())]),
            val: Value::Simple(Simple::True),
        },
    ]);
    let bytes = v.encode();
    let back = cborg::decode(&bytes).unwrap();
    assert_eq!(v, back);
}

/// Minimal-length encoding at every width boundary.
#[test]
fn minimal_length_unsigned() {
    let cases: [(u64, Vec<u8>); 9] = [
        (0, vec![0x00]),
        (23, vec![0x17]),
        (24, vec![0x18, 24]),
        (255, vec![0x18, 255]),
        (256, vec![0x19, 0x01, 0x00]),
        (65535, vec![0x19, 0xFF, 0xFF]),
        (65536, vec![0x1A, 0x00, 0x01, 0x00, 0x00]),
        (0xFFFF_FFFF, vec![0x1A, 0xFF, 0xFF, 0xFF, 0xFF]),
        (0x1_0000_0000, vec![0x1B, 0x00, 0x00, 0x00, 0x01, 0x00, 0x00, 0x00, 0x00]),
    ];
    for (n, expect) in cases.iter() {
        let bytes = Value::Unsigned(*n).encode();
        assert_eq!(&bytes, expect);
        assert_eq!(cborg::decode(&bytes).unwrap(), Value::Unsigned(*n));
    }
}

/// Negative round trip, including the 64-bit boundary.
#[test]
fn negative_round_trip() {
    for n in [-1i64, -24, -25, i64::MIN + 1, i64::MIN] {
        let bytes = Value::Negative(n).encode();
        assert_eq!(cborg::decode(&bytes).unwrap(), Value::Negative(n));
    }
    assert_eq!(Value::Negative(-1).encode(), vec![0x20]);
    assert_eq!(Value::Negative(-24).encode(), vec![0x37]);
    assert_eq!(Value::Negative(-25).encode(), vec![0x38, 24]);
}

/// Indefinite- and definite-length encodings of the same content decode
/// to identical trees.
#[test]
fn indefinite_definite_equivalence() {
    // array: [1, "ab"] in both forms
    let definite = [0x82u8, 0x01, 0x62, 0x61, 0x62];
    let indefinite = [0x9Fu8, 0x01, 0x62, 0x61, 0x62, 0xFF];
    assert_eq!(
        cborg::decode(&definite).unwrap(),
        cborg::decode(&indefinite).unwrap()
    );

    // map: {1: 2} in both forms
    let definite = [0xA1u8, 0x01, 0x02];
    let indefinite = [0xBFu8, 0x01, 0x02, 0xFF];
    assert_eq!(
        cborg::decode(&definite).unwrap(),
        cborg::decode(&indefinite).unwrap()
    );

    // byte string: h'010203' definite, and chunked as h'01' + h'0203'
    let definite = [0x43u8, 1, 2, 3];
    let indefinite = [0x5Fu8, 0x41, 1, 0x42, 2, 3, 0xFF];
    assert_eq!(
        cborg::decode(&definite).unwrap(),
        cborg::decode(&indefinite).unwrap()
    );

    // text string: "abc" definite, and chunked as "a" + "bc"
    let definite = [0x63u8, 0x61, 0x62, 0x63];
    let indefinite = [0x7Fu8, 0x61, 0x61, 0x62, 0x62, 0x63, 0xFF];
    assert_eq!(
        cborg::decode(&definite).unwrap(),
        cborg::decode(&indefinite).unwrap()
    );

    // the full fixture pair of test.rs is exercised there
}

/// Lossy skip: converting an array mixing convertible and non-convertible
/// elements yields exactly the convertible subsequence, in order.
#[test]
fn lossy_skip() {
    let v = Value::Array(vec![
        Value::Unsigned(1),
        Value::Utf8String("nope".to_string()),
        Value::Unsigned(2),
        Value::Negative(-5),
        Value::Unsigned(70000),
        Value::Simple(Simple::Null),
        Value::Unsigned(3),
    ]);
    let out: Vec<u32> = cborg::value::FromValue::from_ref(&v).unwrap();
    assert_eq!(out, vec![1, 2, 70000, 3]);
    let out: Vec<u8> = cborg::value::FromValue::from_value(v).unwrap();
    assert_eq!(out, vec![1, 2, 3]);
}

/// A tag header consumes one leading byte and yields the tagged content.
#[test]
fn tag_is_discarded() {
    let bytes = [0xC1u8, 0x18, 0x2A];
    assert_eq!(cborg::decode(&bytes).unwrap(), Value::Unsigned(42));
}

/// Simple values: one-byte codes, the extended form, and the reserved
/// codes the format cannot carry.
#[test]
fn simple_values() {
    assert_eq!(Value::Simple(Simple::False).encode(), vec![0xF4]);
    assert_eq!(Value::Simple(Simple::True).encode(), vec![0xF5]);
    assert_eq!(Value::Simple(Simple::Null).encode(), vec![0xF6]);
    assert_eq!(Value::Simple(Simple::Undefined).encode(), vec![0xF7]);
    assert_eq!(Value::Simple(Simple::Unassigned(5)).encode(), vec![0xE5]);
    assert_eq!(Value::Simple(Simple::Unassigned(200)).encode(), vec![0xF8, 200]);

    let round = cborg::decode(&Value::Simple(Simple::Unassigned(200)).encode()).unwrap();
    assert_eq!(round, Value::Simple(Simple::Unassigned(200)));

    // a reserved code has no well-formed encoding; its two-byte form is
    // one the decoder rejects
    let reserved = Value::Simple(Simple::Unassigned(25)).encode();
    assert_eq!(reserved, vec![0xF8, 25]);
    let e = cborg::decode(&reserved).unwrap_err();
    assert_eq!(e.kind, ErrorKind::UnexpectedValue);
}

/// Each error class on an input that earns it.
#[test]
fn decode_errors() {
    // exhausted stream while reading a payload
    let e = cborg::decode(&[0x19u8, 0x01]).unwrap_err();
    assert_eq!(e.kind, ErrorKind::InsufficientBytes);
    // empty stream
    let e = cborg::decode(&[]).unwrap_err();
    assert_eq!(e.kind, ErrorKind::InsufficientBytes);
    // reserved minor on an unsigned header
    let e = cborg::decode(&[0x1Cu8]).unwrap_err();
    assert_eq!(e.kind, ErrorKind::UnexpectedValue);
    // invalid UTF-8 in a text string
    let e = cborg::decode(&[0x61u8, 0xFF]).unwrap_err();
    assert_eq!(e.kind, ErrorKind::UnexpectedValue);
    // a break byte where a value was expected
    let e = cborg::decode(&[0xFFu8]).unwrap_err();
    assert_eq!(e.kind, ErrorKind::UnexpectedValue);
    // array whose element stream runs dry
    let e = cborg::decode(&[0x82u8, 0x01]).unwrap_err();
    assert_eq!(e.kind, ErrorKind::InsufficientBytes);
}

/// Half- and single-width float payloads are read as zero-extended raw
/// bits; only the eight-byte form is a faithful double.
#[test]
fn float_widths() {
    let v = cborg::decode(&[0xF9u8, 0x3C, 0x00]).unwrap();
    assert_eq!(v, Value::Float(0x3C00));
    let v = cborg::decode(&[0xFAu8, 0x3F, 0x80, 0x00, 0x00]).unwrap();
    assert_eq!(v, Value::Float(0x3F80_0000));
    let one_point_five = [0xFBu8, 0x3F, 0xF8, 0, 0, 0, 0, 0, 0];
    let v = cborg::decode(&one_point_five).unwrap();
    assert_eq!(v, Value::Float((1.5f64).to_bits()));
    assert_eq!(v.encode(), one_point_five.to_vec());
}

/// Trailing bytes after the first complete value are ignored.
#[test]
fn trailing_bytes_ignored() {
    let v = cborg::decode(&[0x05u8, 0xAA, 0xBB]).unwrap();
    assert_eq!(v, Value::Unsigned(5));
}

/// A byte buffer converts from a byte string directly and from an array
/// of small integers element by element.
#[test]
fn byte_buffer_paths() {
    let v = cborg::decode(&[0x43u8, 9, 8, 7]).unwrap();
    let fast: Vec<u8> = cborg::value::FromValue::from_ref(&v).unwrap();
    assert_eq!(fast, vec![9, 8, 7]);

    let v = Value::Array(vec![
        Value::Unsigned(1),
        Value::Unsigned(300),
        Value::Negative(-1),
        Value::Unsigned(2),
    ]);
    let slow: Vec<u8> = cborg::value::FromValue::from_value(v).unwrap();
    assert_eq!(slow, vec![1, 2]);
}

/// The pair shape accepts exactly a one-entry map.
#[test]
fn pair_conversion() {
    let one = Value::Table(vec![KeyVal {
        key: Value::Unsigned(7),
        val: Value::Utf8String("seven".to_string()),
    }]);
    let p: (u64, String) = cborg::value::FromValue::from_ref(&one).unwrap();
    assert_eq!(p, (7, "seven".to_string()));

    let two = Value::Table(vec![
        KeyVal { key: Value::Unsigned(1), val: Value::Unsigned(2) },
        KeyVal { key: Value::Unsigned(3), val: Value::Unsigned(4) },
    ]);
    let p: Option<(u64, u64)> = cborg::value::FromValue::from_ref(&two);
    assert!(p.is_none());
}

/// The getters expose exactly the variant they name.
#[test]
fn getters() {
    let v = Value::Unsigned(9);
    assert_eq!(v.major(), 0);
    assert_eq!(v.get_uint(), Some(9));
    assert_eq!(v.get_neg(), None);
    assert!(v.get_string().is_none());
    let v = Value::Negative(-9);
    assert_eq!(v.major(), 1);
    assert_eq!(v.get_neg(), Some(-9));
    let v = Value::Float((2.5f64).to_bits());
    assert_eq!(v.major(), 7);
    assert_eq!(f64::from_bits(v.get_float().unwrap()), 2.5);
    let v = Value::Table(vec![KeyVal { key: Value::Unsigned(1), val: Value::Unsigned(2) }]);
    assert_eq!(v.major(), 5);
    let pairs = v.get_map().unwrap();
    assert_eq!(pairs.len(), 1);
    assert_eq!(pairs[0].key, Value::Unsigned(1));
    assert_eq!(pairs[0].val, Value::Unsigned(2));
    assert!(v.get_hash_map().is_some());
    assert!(Value::Unsigned(0).get_hash_map().is_none());
}

/// Booleans convert from the two boolean simple values and nothing else.
#[test]
fn bool_conversion() {
    let t: bool = cborg::value::FromValue::from_ref(&Value::Simple(Simple::True)).unwrap();
    assert!(t);
    let f: bool = cborg::value::FromValue::from_ref(&Value::Simple(Simple::False)).unwrap();
    assert!(!f);
    let n: Option<bool> = cborg::value::FromValue::from_ref(&Value::Simple(Simple::Null));
    assert!(n.is_none());
}

/// The streaming entry point advances its cursor one value at a time.
#[test]
fn decode_iter_cursor() {
    let bytes = [0x01u8, 0x62, 0x68, 0x69];
    let mut pos: usize = 0;
    let first = cborg::decode_iter(&bytes, &mut pos).unwrap();
    assert_eq!(first, Value::Unsigned(1));
    assert_eq!(pos, 1);
    let second = cborg::decode_iter(&bytes, &mut pos).unwrap();
    assert_eq!(second, Value::Utf8String("hi".to_string()));
    assert_eq!(pos, 4);
}

/// The by-value, by-reference and dynamic encode entry points produce
/// byte-identical output for the same source.
#[test]
fn encode_variants_agree() {
    let v: Vec<u32> = vec![1, 2, 70000];
    let by_ref = cborg::encode_ref(&v);
    let by_dyn = cborg::encode_dyn(&v);
    let by_value = cborg::encode(v);
    assert_eq!(by_value, by_ref);
    assert_eq!(by_value, by_dyn);
    assert_eq!(by_value, vec![0x83, 0x01, 0x02, 0x1A, 0x00, 0x01, 0x11, 0x70]);
}

/// An ordered source container renders deterministically: entries appear
/// in ascending key order, by value and by reference alike.
#[test]
fn btree_map_sources() {
    let mut m = std::collections::BTreeMap::new();
    m.insert(2u32, "b".to_string());
    m.insert(1u32, "a".to_string());

    let by_ref = cborg::encode_ref(&m);
    assert_eq!(by_ref, vec![0xA2, 0x01, 0x61, 0x61, 0x02, 0x61, 0x62]);

    let by_value = cborg::encode(m);
    assert_eq!(by_value, by_ref);

    let decoded: std::collections::BTreeMap<u32, String> =
        cborg::decode_to(&by_value).unwrap().unwrap();
    assert_eq!(decoded.len(), 2);
    assert_eq!(decoded[&1], "a");
    assert_eq!(decoded[&2], "b");
}

/// The bounded decode refuses an over-limit input outright and behaves
/// exactly as `decode` within the limit.
#[test]
fn decode_bounded_guard() {
    let bytes = [0x83u8, 0x01, 0x02, 0x03];
    assert!(cborg::decode_bounded(&bytes, 3).is_none());
    let v = cborg::decode_bounded(&bytes, 4).unwrap().unwrap();
    assert_eq!(v, cborg::decode(&bytes).unwrap());
    assert!(cborg::decode_bounded(&[0x19u8, 0x01], 16).unwrap().is_err());
}

/// A duplicate key in a decoded map: the last pair in order wins in the
/// typed conversion and in the hash-map accessor.
#[test]
fn duplicate_keys_last_wins() {
    // {1: 10, 1: 20}
    let bytes = [0xA2u8, 0x01, 0x0A, 0x01, 0x14];
    let m: std::collections::HashMap<u64, u64> =
        cborg::decode_to(&bytes).unwrap().unwrap();
    assert_eq!(m.len(), 1);
    assert_eq!(m[&1], 20);

    let v = cborg::decode(&bytes).unwrap();
    let h = v.get_hash_map().unwrap();
    assert_eq!(h.len(), 1);
    assert_eq!(h[&Value::Unsigned(1)], Value::Unsigned(20));
}

/// The worked decode-to examples: a map keyed by small signed integers
/// and an array of unsigned integers.
#[test]
fn decode_to_examples() {
    let bytes = [
        0b1010_0010u8,
        0b0011_1000,
        0b0001_1000,
        0b0110_0011,
        0x61,
        0x62,
        0x63,
        0b0000_0111,
        0b0110_0011,
        0x44,
        0x45,
        0x46,
    ];
    let map: std::collections::HashMap<i8, String> =
        cborg::decode_to(&bytes).unwrap().unwrap();
    assert_eq!("abc", map[&-25]);
    assert_eq!("DEF", map[&7]);

    let bytes = [0b1000_0011u8, 11, 22, 0b0001_1000, 33];
    let array: Vec<u32> = cborg::decode_to(&bytes).unwrap().unwrap();
    assert_eq!(11, array[0]);
    assert_eq!(22, array[1]);
    assert_eq!(33, array[2]);
}
