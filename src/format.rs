//! The wire format as mathematics: what bytes a document encodes to, and what
//! a byte sequence decodes to.
use vstd::prelude::*;
use vstd::utf8::*;
use crate::error::Fault;

verus! {

/// Row termination byte.
pub const END_ROW: u8 = 0xFD;
/// Represents an absent value.
pub const NULL_VALUE: u8 = 0xFE;
/// Value termination byte.
pub const END_VALUE: u8 = 0xFF;

/// A value: absent, or the characters of a string.
pub type ValueModel = Option<Seq<char>>;
/// A row: its values in order.
pub type RowModel = Seq<ValueModel>;
/// A document: its rows in order.
pub type DocModel = Seq<RowModel>;

/// `i` is the position of the first `x` in `b`.
pub open spec fn is_first(b: Seq<u8>, x: u8, i: int) -> bool {
    &&& 0 <= i < b.len()
    &&& b[i] == x
    &&& forall|j: int| 0 <= j < i ==> b[j] != x
}

/// `b` holds the byte `x` somewhere.
pub open spec fn terminated(b: Seq<u8>, x: u8) -> bool {
    exists|i: int| is_first(b, x, i)
}

/// The position of the first `x` in `b`, where there is one.
pub open spec fn first_of(b: Seq<u8>, x: u8) -> int
    recommends
        terminated(b, x),
{
    choose|i: int| is_first(b, x, i)
}

/// What the bytes between two value terminators stand for.
pub open spec fn decode_value(span: Seq<u8>) -> Result<ValueModel, Fault> {
    if span == seq![NULL_VALUE] {
        Ok(None)
    } else if valid_utf8(span) {
        Ok(Some(decode_utf8(span)))
    } else {
        Err(Fault::BadUtf8)
    }
}

/// What the bytes of one row (without its terminator) stand for: the values
/// in order, or the first fault met scanning from the front.
pub open spec fn decode_row(b: Seq<u8>) -> Result<RowModel, Fault>
    decreases b.len(),
{
    if b.len() == 0 {
        Ok(seq![])
    } else if !terminated(b, END_VALUE) {
        Err(Fault::UnterminatedValue)
    } else {
        let p = first_of(b, END_VALUE);
        match decode_value(b.take(p)) {
            Err(f) => Err(f),
            Ok(v) => match decode_row(b.skip(p + 1)) {
                Err(f) => Err(f),
                Ok(rest) => Ok(seq![v] + rest),
            },
        }
    }
}

/// What a whole buffer stands for: the rows in order, or the first fault met
/// scanning from the front (a row's values are read before the next row).
pub open spec fn decode_doc(b: Seq<u8>) -> Result<DocModel, Fault>
    decreases b.len(),
{
    if b.len() == 0 {
        Ok(seq![])
    } else if !terminated(b, END_ROW) {
        Err(Fault::UnterminatedRow)
    } else {
        let p = first_of(b, END_ROW);
        match decode_row(b.take(p)) {
            Err(f) => Err(f),
            Ok(r) => match decode_doc(b.skip(p + 1)) {
                Err(f) => Err(f),
                Ok(rest) => Ok(seq![r] + rest),
            },
        }
    }
}

/// The bytes of one value, its terminator included.
pub open spec fn value_bytes(v: ValueModel) -> Seq<u8> {
    match v {
        None => seq![NULL_VALUE, END_VALUE],
        Some(s) => encode_utf8(s).push(END_VALUE),
    }
}

/// The bytes of one row's values, without the row terminator.
pub open spec fn row_bytes(r: RowModel) -> Seq<u8>
    decreases r.len(),
{
    if r.len() == 0 {
        seq![]
    } else {
        value_bytes(r[0]) + row_bytes(r.drop_first())
    }
}

/// The bytes of a whole document.
pub open spec fn doc_bytes(d: DocModel) -> Seq<u8>
    decreases d.len(),
{
    if d.len() == 0 {
        seq![]
    } else {
        row_bytes(d[0]).push(END_ROW) + doc_bytes(d.drop_first())
    }
}

/// Appending a value appends its bytes.
pub proof fn lemma_row_bytes_push(r: RowModel, v: ValueModel)
    ensures
        row_bytes(r.push(v)) == row_bytes(r) + value_bytes(v),
    decreases r.len(),
{
    if r.len() == 0 {
        assert(r.push(v).drop_first() =~= seq![]);
        assert(row_bytes(r.push(v).drop_first()) == Seq::<u8>::empty());
        assert(r.push(v)[0] == v);
        assert(row_bytes(r.push(v)) =~= value_bytes(v));
    } else {
        assert(r.push(v).drop_first() =~= r.drop_first().push(v));
        lemma_row_bytes_push(r.drop_first(), v);
        assert(row_bytes(r.push(v)) =~= row_bytes(r) + value_bytes(v));
    }
}

/// Appending a row appends its bytes and a row terminator.
pub proof fn lemma_doc_bytes_push(d: DocModel, r: RowModel)
    ensures
        doc_bytes(d.push(r)) == doc_bytes(d) + row_bytes(r).push(END_ROW),
    decreases d.len(),
{
    if d.len() == 0 {
        assert(d.push(r).drop_first() =~= seq![]);
        assert(doc_bytes(d.push(r).drop_first()) == Seq::<u8>::empty());
        assert(doc_bytes(d.push(r)) =~= row_bytes(r).push(END_ROW));
    } else {
        assert(d.push(r).drop_first() =~= d.drop_first().push(r));
        lemma_doc_bytes_push(d.drop_first(), r);
        assert(doc_bytes(d.push(r)) =~= doc_bytes(d) + row_bytes(r).push(END_ROW));
    }
}

proof fn lemma_scalar_bytes_low(c: u32)
    requires
        is_scalar(c),
    ensures
        forall|i: int| 0 <= i < encode_scalar(c).len() ==> encode_scalar(c)[i] < 0xF8,
{
    assert(((c & 0x7F) as u8) < 0xF8) by (bit_vector);
    assert((0xC0 | ((c >> 6) & 0x1F) as u8) < 0xF8) by (bit_vector);
    assert((0xE0 | ((c >> 12) & 0x0F) as u8) < 0xF8) by (bit_vector);
    assert((0xF0 | ((c >> 18) & 0x7) as u8) < 0xF8) by (bit_vector);
    assert((0x80 | (c & 0x3F) as u8) < 0xF8) by (bit_vector);
    assert((0x80 | ((c >> 6) & 0x3F) as u8) < 0xF8) by (bit_vector);
    assert((0x80 | ((c >> 12) & 0x3F) as u8) < 0xF8) by (bit_vector);
}

/// UTF-8 text never holds a byte of 0xF8 or above, so none of the format's
/// delimiters.
pub proof fn lemma_utf8_bytes_low(s: Seq<char>)
    ensures
        forall|i: int| 0 <= i < encode_utf8(s).len() ==> encode_utf8(s)[i] < 0xF8,
    decreases s.len(),
{
    if s.len() > 0 {
        char_is_scalar(s[0]);
        lemma_scalar_bytes_low(s[0] as u32);
        lemma_utf8_bytes_low(s.drop_first());
        let head = encode_scalar(s[0] as u32);
        let tail = encode_utf8(s.drop_first());
        assert(encode_utf8(s) == head + tail);
        assert forall|i: int| 0 <= i < encode_utf8(s).len() implies encode_utf8(s)[i] < 0xF8 by {
            if i >= head.len() {
                assert(encode_utf8(s)[i] == tail[i - head.len()]);
            }
        }
    }
}

} // verus!
