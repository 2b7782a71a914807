use paged_storage::datum::serialize::{Reader, Writer};
use paged_storage::datum::{Datum, Nullability, Type};

#[test]
fn serialize_string() {
    let mut w = Writer::new();
    Datum::String("Hello world! ąść".into()).serialize(&mut w, Nullability::NotNull);
    assert_eq!(
        w.data(),
        &[
            0x13, 0x00, 0x00, 0x00, 0x48, 0x65, 0x6c, 0x6c, 0x6f, 0x20, 0x77, 0x6f, 0x72, 0x6c,
            0x64, 0x21, 0x20, 0xc4, 0x85, 0xc5, 0x9b, 0xc4, 0x87
        ][..]
    );
}

#[test]
fn serialize_string_nullable() {
    let mut w = Writer::new();
    Datum::String("Hello world! ąść".into()).serialize(&mut w, Nullability::Nullable);
    assert_eq!(
        w.data(),
        &[
            0x01, 0x13, 0x00, 0x00, 0x00, 0x48, 0x65, 0x6c, 0x6c, 0x6f, 0x20, 0x77, 0x6f, 0x72,
            0x6c, 0x64, 0x21, 0x20, 0xc4, 0x85, 0xc5, 0x9b, 0xc4, 0x87
        ][..]
    );
}

#[test]
fn serialize_int() {
    let mut w = Writer::new();
    Datum::Int8(0x1234567890abcdef).serialize(&mut w, Nullability::NotNull);
    assert_eq!(w.data(), &[0xef, 0xcd, 0xab, 0x90, 0x78, 0x56, 0x34, 0x12][..]);
}

#[test]
fn serialize_bool() {
    let mut w = Writer::new();
    Datum::Bool(true).serialize(&mut w, Nullability::NotNull);
    assert_eq!(w.data(), &[0x01][..]);
}

#[test]
fn serialize_null() {
    let mut w = Writer::new();
    Datum::Null.serialize(&mut w, Nullability::Nullable);
    assert_eq!(w.data(), &[0x00][..]);
}

fn samples() -> Vec<Datum> {
    vec![
        Datum::String(String::new()),
        Datum::String("a".into()),
        Datum::String("Hello world! ąść \u{10348} \u{fffd}".into()),
        Datum::Int8(0),
        Datum::Int8(1),
        Datum::Int8(-1),
        Datum::Int8(i64::MAX),
        Datum::Int8(i64::MIN),
        Datum::Int8(-0x1234567890abcdef),
        Datum::Bool(true),
        Datum::Bool(false),
        Datum::Null,
    ]
}

#[test]
fn roundtrip_one() {
    for d in samples() {
        for n0 in [Nullability::Nullable, Nullability::NotNull] {
            let n = if d == Datum::Null { Nullability::Nullable } else { n0 };
            let mut w = Writer::new();
            d.serialize(&mut w, n);
            let mut reader = Reader::new(w.data());
            let d2 = Datum::deserialize(&mut reader, n, d.ty().unwrap_or(Type::Bool));
            assert_eq!(d, d2);
            assert!(reader.data().is_empty());
        }
    }
}

#[test]
fn roundtrip_many() {
    let tuple: Vec<(Datum, Nullability)> = samples()
        .into_iter()
        .enumerate()
        .map(|(i, d)| (d, if i % 2 == 0 { Nullability::Nullable } else { Nullability::NotNull }))
        .collect();
    let mut w = Writer::new();
    for (d, n0) in &tuple {
        let n = if *d == Datum::Null { Nullability::Nullable } else { *n0 };
        d.serialize(&mut w, n);
    }
    let mut reader = Reader::new(w.data());
    let mut tuple2 = Vec::new();
    for (d, n0) in &tuple {
        let n = if *d == Datum::Null { Nullability::Nullable } else { *n0 };
        tuple2.push((Datum::deserialize(&mut reader, n, d.ty().unwrap_or(Type::Bool)), *n0));
    }
    assert_eq!(tuple, tuple2);
    assert!(reader.data().is_empty());
}

#[test]
fn negative_integers_are_twos_complement() {
    let mut w = Writer::new();
    Datum::Int8(-2).serialize(&mut w, Nullability::Nullable);
    assert_eq!(w.data(), &[1, 0xfe, 0xff, 0xff, 0xff, 0xff, 0xff, 0xff, 0xff][..]);
    let mut w = Writer::new();
    Datum::Int8(i64::MIN).serialize(&mut w, Nullability::NotNull);
    assert_eq!(w.data(), &[0, 0, 0, 0, 0, 0, 0, 0x80][..]);
}

#[test]
fn text_that_is_not_utf8_is_replaced() {
    let bytes = [3u8, 0, 0, 0, b'a', 0xff, b'b', 9];
    let mut reader = Reader::new(&bytes);
    let d = Datum::deserialize(&mut reader, Nullability::NotNull, Type::String);
    assert_eq!(d, Datum::String("a\u{fffd}b".into()));
    assert_eq!(reader.data(), &[9u8][..]);
}

#[test]
fn reader_and_writer() {
    let mut w = Writer::default();
    w.write_u8(7);
    w.write_u32(0x01020304);
    w.write_i64(-3);
    w.write_bytes(b"xyz");
    assert_eq!(
        w.data(),
        &[7, 4, 3, 2, 1, 0xfd, 0xff, 0xff, 0xff, 0xff, 0xff, 0xff, 0xff, b'x', b'y', b'z'][..]
    );
    let mut r = Reader::new(w.data());
    assert_eq!(r.read_u8(), 7);
    assert_eq!(r.read_u32(), 0x01020304);
    assert_eq!(r.data().len(), 11);
    assert_eq!(r.read_i64(), -3);
    r.advance(1);
    assert_eq!(r.read_bytes(2), b"yz");
    assert!(r.data().is_empty());

    assert_eq!(Datum::Null.ty(), None);
    assert_eq!(Datum::Bool(false).ty(), Some(Type::Bool));
    assert_eq!(Datum::Int8(3).ty(), Some(Type::Int8));
    assert_eq!(Datum::String("s".into()).ty(), Some(Type::String));

    // A present truth value of a nullable column, any byte but 0 for true.
    let mut r = Reader::new(&[1, 2]);
    assert_eq!(Datum::deserialize(&mut r, Nullability::Nullable, Type::Bool), Datum::Bool(true));
    let mut r = Reader::new(&[0, 2]);
    assert_eq!(Datum::deserialize(&mut r, Nullability::Nullable, Type::Int8), Datum::Null);
    assert_eq!(r.data(), &[2u8][..]);
}
