//! The byte format of datums.
//!
//! A value of a nullable column starts with one byte, 0 for null and 1 for a
//! value. Text is its length in bytes as 32 bits, then its bytes in UTF-8. An
//! integer is its eight bytes in two's complement. A truth value is one byte,
//! 0 or 1. Numbers stand least significant byte first.

use vstd::prelude::*;
use vstd::utf8::{decode_utf8, encode_utf8, encode_utf8_decode_utf8, encode_utf8_valid_utf8, valid_utf8};
use crate::codec::{
    lemma_signed_unsigned, lemma_u32_at_range, lemma_u32_bytes, lemma_u64_bytes, read_u32,
    signed_of, u32_at, u32_bytes, u64_at, u64_bytes, unsigned_of,
};
use crate::datum::{Datum, DatumView, Nullability, Type};

verus! {

/// The text that lossy decoding makes of `bytes` that are not UTF-8.
pub uninterp spec fn lossy_text(bytes: Seq<u8>) -> Seq<char>;

/// The text that `bytes` hold: what they encode where they are UTF-8, else
/// what lossy decoding makes of them.
pub open spec fn text_of(bytes: Seq<u8>) -> Seq<char> {
    if valid_utf8(bytes) {
        decode_utf8(bytes)
    } else {
        lossy_text(bytes)
    }
}

/// `String::from_utf8_lossy`, made an owned string: the text that `bytes`
/// encode where they are UTF-8; else a text that depends on the bytes alone,
/// with the replacement character for what is not UTF-8. The contract is
/// taken on trust from the documentation of the standard library.
#[verifier::external_body]
fn text_from_utf8_lossy(bytes: &[u8]) -> (text: String)
    ensures
        valid_utf8(bytes@) ==> text@ == decode_utf8(bytes@),
        !valid_utf8(bytes@) ==> text@ == lossy_text(bytes@),
{
    String::from_utf8_lossy(bytes).into_owned()
}

/// The byte that marks a value of a nullable column as present.
pub const NOT_NULL: u8 = 1;

/// What is left of a byte string to read.
pub struct Reader<'a> {
    data: &'a [u8],
    offset: usize,
}

impl<'a> View for Reader<'a> {
    type V = Seq<u8>;

    closed spec fn view(&self) -> Seq<u8> {
        self.data@.skip(self.offset as int)
    }
}

impl<'a> Reader<'a> {
    /// Whether the reader stands inside its bytes.
    pub closed spec fn wf(&self) -> bool {
        self.offset <= self.data@.len()
    }

    /// A reader at the start of `data`.
    pub fn new(data: &'a [u8]) -> (reader: Self)
        ensures
            reader.wf(),
            reader@ == data@,
    {
        Self { data, offset: 0 }
    }

    /// The bytes that are left to read.
    pub fn data(&self) -> (data: &'a [u8])
        requires
            self.wf(),
        ensures
            data@ == self@,
    {
        vstd::slice::slice_subrange(self.data, self.offset, self.data.len())
    }

    /// Skips `len` bytes.
    pub fn advance(&mut self, len: usize)
        requires
            old(self).wf(),
            len <= old(self)@.len(),
        ensures
            final(self).wf(),
            final(self)@ == old(self)@.skip(len as int),
    {
        proof {
            vstd::slice::axiom_spec_len(self.data);
        }
        self.offset += len;
        proof {
            assert(self@ =~= old(self)@.skip(len as int));
        }
    }

    /// Reads a 32-bit number.
    pub fn read_u32(&mut self) -> (value: u32)
        requires
            old(self).wf(),
            4 <= old(self)@.len(),
        ensures
            final(self).wf(),
            value == u32_at(old(self)@, 0),
            final(self)@ == old(self)@.skip(4),
    {
        let value = read_u32(self.data, self.offset);
        self.advance(4);
        value
    }

    /// Reads one byte.
    pub fn read_u8(&mut self) -> (value: u8)
        requires
            old(self).wf(),
            1 <= old(self)@.len(),
        ensures
            final(self).wf(),
            value == old(self)@[0],
            final(self)@ == old(self)@.skip(1),
    {
        let value = self.data[self.offset];
        self.advance(1);
        value
    }

    /// Reads a signed 64-bit number.
    pub fn read_i64(&mut self) -> (value: i64)
        requires
            old(self).wf(),
            8 <= old(self)@.len(),
        ensures
            final(self).wf(),
            value == signed_of(u64_at(old(self)@, 0)),
            final(self)@ == old(self)@.skip(8),
    {
        proof {
            lemma_u32_at_range(self@, 0);
            lemma_u32_at_range(self@, 4);
            vstd::slice::axiom_spec_len(self.data);
        }
        let low = read_u32(self.data, self.offset) as u64;
        let high = read_u32(self.data, self.offset + 4) as u64;
        let unsigned = low + 0x1_0000_0000 * high;
        self.advance(8);
        if unsigned >= 0x8000_0000_0000_0000 {
            (unsigned - 0x8000_0000_0000_0000) as i64 + i64::MIN
        } else {
            unsigned as i64
        }
    }

    /// Reads `len` bytes.
    pub fn read_bytes(&mut self, len: usize) -> (bytes: &'a [u8])
        requires
            old(self).wf(),
            len <= old(self)@.len(),
        ensures
            final(self).wf(),
            bytes@ == old(self)@.take(len as int),
            final(self)@ == old(self)@.skip(len as int),
    {
        proof {
            vstd::slice::axiom_spec_len(self.data);
        }
        let bytes = vstd::slice::slice_subrange(self.data, self.offset, self.offset + len);
        self.advance(len);
        proof {
            assert(bytes@ =~= old(self)@.take(len as int));
        }
        bytes
    }
}

/// The bytes written so far.
pub struct Writer {
    data: Vec<u8>,
}

impl View for Writer {
    type V = Seq<u8>;

    closed spec fn view(&self) -> Seq<u8> {
        self.data@
    }
}

impl Default for Writer {
    fn default() -> (writer: Self)
        ensures
            writer@ == Seq::<u8>::empty(),
    {
        Self::new()
    }
}

impl Writer {
    /// A writer that has written nothing.
    pub fn new() -> (writer: Self)
        ensures
            writer@ == Seq::<u8>::empty(),
    {
        Self { data: Vec::new() }
    }

    /// The bytes written so far.
    pub fn data(&self) -> (data: &[u8])
        ensures
            data@ == self@,
    {
        self.data.as_slice()
    }

    /// Writes a 32-bit number.
    pub fn write_u32(&mut self, val: u32)
        ensures
            final(self)@ == old(self)@ + u32_bytes(val as int),
    {
        self.data.push((val % 256) as u8);
        self.data.push(((val / 256) % 256) as u8);
        self.data.push(((val / 65536) % 256) as u8);
        self.data.push((val / 16777216) as u8);
        proof {
            assert(self@ =~= old(self)@ + u32_bytes(val as int));
        }
    }

    /// Writes a signed 64-bit number.
    pub fn write_i64(&mut self, val: i64)
        ensures
            final(self)@ == old(self)@ + u64_bytes(unsigned_of(val as int)),
    {
        let unsigned: u64 = if val >= 0 {
            val as u64
        } else {
            ((val - i64::MIN) as u64) + 0x8000_0000_0000_0000
        };
        self.write_u32((unsigned % 0x1_0000_0000) as u32);
        self.write_u32((unsigned / 0x1_0000_0000) as u32);
        proof {
            assert(self@ =~= old(self)@ + u64_bytes(unsigned_of(val as int)));
        }
    }

    /// Writes one byte.
    pub fn write_u8(&mut self, val: u8)
        ensures
            final(self)@ == old(self)@ + seq![val],
    {
        self.data.push(val);
        proof {
            assert(self@ =~= old(self)@ + seq![val]);
        }
    }

    /// Writes `b`.
    pub fn write_bytes(&mut self, b: &[u8])
        ensures
            final(self)@ == old(self)@ + b@,
    {
        self.data.extend_from_slice(b);
        proof {
            assert(self@ =~= old(self)@ + b@);
        }
    }
}

/// The byte that stands before a value of a nullable column; nothing for
/// other columns.
pub open spec fn presence(n: Nullability) -> Seq<u8> {
    if n is Nullable {
        seq![NOT_NULL]
    } else {
        Seq::empty()
    }
}

/// Whether `datum` can stand in a column of nullability `n`: a null needs a
/// nullable column, and the length of a text must fit into 32 bits.
pub open spec fn serializable(datum: DatumView, n: Nullability) -> bool {
    match datum {
        DatumView::String(text) => encode_utf8(text).len() <= u32::MAX,
        DatumView::Null => n is Nullable,
        _ => true,
    }
}

/// The bytes of `datum` in a column of nullability `n`.
pub open spec fn encoded(datum: DatumView, n: Nullability) -> Seq<u8> {
    match datum {
        DatumView::String(text) => presence(n) + u32_bytes(encode_utf8(text).len() as int)
            + encode_utf8(text),
        DatumView::Int8(value) => presence(n) + u64_bytes(unsigned_of(value as int)),
        DatumView::Bool(value) => presence(n) + seq![if value { 1u8 } else { 0u8 }],
        DatumView::Null => seq![0u8],
    }
}

/// Where the value starts in the bytes of a column of nullability `n`.
pub open spec fn value_start(n: Nullability) -> int {
    if n is Nullable {
        1
    } else {
        0
    }
}

/// Whether the bytes of a column of nullability `n` start with a null.
pub open spec fn starts_with_null(bytes: Seq<u8>, n: Nullability) -> bool {
    n is Nullable && bytes[0] == 0
}

/// Whether `bytes` start with all the bytes of a datum of type `ty` in a
/// column of nullability `n`.
pub open spec fn decodable(bytes: Seq<u8>, n: Nullability, ty: Type) -> bool {
    &&& value_start(n) <= bytes.len()
    &&& !starts_with_null(bytes, n) ==> match ty {
        Type::String => value_start(n) + 4 <= bytes.len() && value_start(n) + 4 + u32_at(
            bytes,
            value_start(n),
        ) <= bytes.len(),
        Type::Int8 => value_start(n) + 8 <= bytes.len(),
        Type::Bool => value_start(n) + 1 <= bytes.len(),
    }
}

/// The number of bytes that the datum at the start of `bytes` takes.
pub open spec fn decoded_len(bytes: Seq<u8>, n: Nullability, ty: Type) -> int {
    if starts_with_null(bytes, n) {
        1
    } else {
        match ty {
            Type::String => value_start(n) + 4 + u32_at(bytes, value_start(n)),
            Type::Int8 => value_start(n) + 8,
            Type::Bool => value_start(n) + 1,
        }
    }
}

/// The datum of type `ty` at the start of `bytes`, of a column of nullability
/// `n`.
pub open spec fn decoded(bytes: Seq<u8>, n: Nullability, ty: Type) -> DatumView {
    if starts_with_null(bytes, n) {
        DatumView::Null
    } else {
        match ty {
            Type::String => DatumView::String(
                text_of(
                    bytes.subrange(
                        value_start(n) + 4,
                        value_start(n) + 4 + u32_at(bytes, value_start(n)),
                    ),
                ),
            ),
            Type::Int8 => DatumView::Int8(signed_of(u64_at(bytes, value_start(n))) as i64),
            Type::Bool => DatumView::Bool(bytes[value_start(n)] > 0),
        }
    }
}

/// What is written reads back: the bytes of a datum, whatever follows them,
/// decode to the datum and take as many bytes as were written. A null reads
/// back for any type.
pub proof fn lemma_roundtrip(datum: DatumView, n: Nullability, ty: Type, rest: Seq<u8>)
    requires
        serializable(datum, n),
        datum.ty() is Some ==> datum.ty() == Some(ty),
    ensures
        decodable(encoded(datum, n) + rest, n, ty),
        decoded(encoded(datum, n) + rest, n, ty) == datum,
        decoded_len(encoded(datum, n) + rest, n, ty) == encoded(datum, n).len(),
{
    let bytes = encoded(datum, n) + rest;
    let start = value_start(n);
    match datum {
        DatumView::String(text) => {
            let payload = encode_utf8(text);
            let tail = payload + rest;
            lemma_u32_bytes(payload.len() as int, tail);
            assert(bytes.skip(start) =~= u32_bytes(payload.len() as int) + tail);
            assert(u32_at(bytes, start) == u32_at(bytes.skip(start), 0));
            assert(bytes.subrange(start + 4, start + 4 + payload.len()) =~= payload);
            encode_utf8_valid_utf8(text);
            encode_utf8_decode_utf8(text);
        },
        DatumView::Int8(value) => {
            lemma_signed_unsigned(value as int);
            lemma_u64_bytes(unsigned_of(value as int), rest);
            assert(bytes.skip(start) =~= u64_bytes(unsigned_of(value as int)) + rest);
            assert(u64_at(bytes, start) == u64_at(bytes.skip(start), 0));
        },
        DatumView::Bool(value) => {},
        DatumView::Null => {},
    }
}

impl Datum {
    /// Reads a datum of type `ty` of a column of nullability `n`.
    pub fn deserialize(r: &mut Reader, n: Nullability, ty: Type) -> (datum: Datum)
        requires
            old(r).wf(),
            decodable(old(r)@, n, ty),
        ensures
            final(r).wf(),
            datum@ == decoded(old(r)@, n, ty),
            final(r)@ == old(r)@.skip(decoded_len(old(r)@, n, ty)),
    {
        let ghost bytes = r@;
        let ghost start = value_start(n);
        if n == Nullability::Nullable {
            let is_null = r.read_u8() == 0;
            if is_null {
                return Datum::Null;
            }
        }
        proof {
            assert(r@ =~= bytes.skip(start));
        }
        match ty {
            Type::String => {
                let len = r.read_u32() as usize;
                let text = r.read_bytes(len);
                proof {
                    assert(text@ =~= bytes.subrange(start + 4, start + 4 + len));
                    assert(r@ =~= bytes.skip(start + 4 + len));
                }
                Datum::String(text_from_utf8_lossy(text))
            },
            Type::Int8 => {
                let value = r.read_i64();
                proof {
                    assert(r@ =~= bytes.skip(start + 8));
                }
                Datum::Int8(value)
            },
            Type::Bool => {
                let value = r.read_u8() > 0;
                proof {
                    assert(r@ =~= bytes.skip(start + 1));
                }
                Datum::Bool(value)
            },
        }
    }

    /// Writes the datum as a value of a column of nullability `n`.
    pub fn serialize(&self, w: &mut Writer, n: Nullability)
        requires
            serializable(self@, n),
        ensures
            final(w)@ == old(w)@ + encoded(self@, n),
    {
        match self {
            Datum::String(s) => {
                if n == Nullability::Nullable {
                    w.write_u8(NOT_NULL);
                }
                let text = s.as_str();
                w.write_u32(text.len() as u32);
                w.write_bytes(text.as_bytes());
                proof {
                    assert(w@ =~= old(w)@ + encoded(self@, n));
                }
            },
            Datum::Int8(v) => {
                if n == Nullability::Nullable {
                    w.write_u8(NOT_NULL);
                }
                w.write_i64(*v);
                proof {
                    assert(w@ =~= old(w)@ + encoded(self@, n));
                }
            },
            Datum::Bool(v) => {
                if n == Nullability::Nullable {
                    w.write_u8(NOT_NULL);
                }
                w.write_u8(if *v {
                    1
                } else {
                    0
                });
                proof {
                    assert(w@ =~= old(w)@ + encoded(self@, n));
                }
            },
            Datum::Null => {
                w.write_u8(0);
            },
        }
    }
}

} // verus!
