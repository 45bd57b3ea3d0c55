//! Properties that relate encoding and decoding.
use vstd::prelude::*;
use vstd::utf8::{encode_utf8, encode_utf8_decode_utf8, encode_utf8_valid_utf8, valid_utf8};
use crate::codec::after;
use crate::error::Fault;
use crate::format::{
    decode_doc, decode_row, decode_value, doc_bytes, first_of, is_first, lemma_utf8_bytes_low,
    row_bytes, terminated, value_bytes, DocModel, RowModel, ValueModel, END_ROW, END_VALUE,
    NULL_VALUE,
};

verus! {

/// Where `a` holds no `x`, the first `x` of `a`, `x`, `t` is the one after `a`.
proof fn lemma_first_after(a: Seq<u8>, x: u8, t: Seq<u8>)
    requires
        forall|i: int| 0 <= i < a.len() ==> a[i] != x,
    ensures
        terminated(a.push(x) + t, x),
        first_of(a.push(x) + t, x) == a.len(),
        (a.push(x) + t).take(a.len() as int) == a,
        (a.push(x) + t).skip(a.len() as int + 1) == t,
{
    let b = a.push(x) + t;
    assert(is_first(b, x, a.len() as int));
    let p = first_of(b, x);
    if p != a.len() {
        assert(b[p] == x);
        assert(p > a.len() ==> b[a.len() as int] != x);
    }
    assert(b.take(a.len() as int) =~= a);
    assert(b.skip(a.len() as int + 1) =~= t);
}

/// A value's span, before its terminator: the null marker or UTF-8 text.
proof fn lemma_value_span(v: ValueModel)
    ensures
        value_bytes(v) == (match v {
            None => seq![NULL_VALUE],
            Some(s) => encode_utf8(s),
        }).push(END_VALUE),
        forall|i: int|
            0 <= i < value_bytes(v).len() - 1 ==> value_bytes(v)[i] != END_VALUE && value_bytes(v)[i]
                != END_ROW,
        decode_value(value_bytes(v).drop_last()) == Ok::<ValueModel, Fault>(v),
{
    match v {
        None => {
            assert(value_bytes(v) =~= seq![NULL_VALUE].push(END_VALUE));
            assert(value_bytes(v).drop_last() =~= seq![NULL_VALUE]);
        },
        Some(s) => {
            let e = encode_utf8(s);
            lemma_utf8_bytes_low(s);
            encode_utf8_valid_utf8(s);
            encode_utf8_decode_utf8(s);
            assert(value_bytes(v).drop_last() =~= e);
            if e.len() == 1 {
                assert(e[0] < 0xF8);
            }
            assert(e != seq![NULL_VALUE]);
        },
    }
}

/// The bytes of a row's values hold no row terminator.
proof fn lemma_row_bytes_no_end_row(r: RowModel)
    ensures
        forall|i: int| 0 <= i < row_bytes(r).len() ==> row_bytes(r)[i] != END_ROW,
    decreases r.len(),
{
    if r.len() > 0 {
        lemma_value_span(r[0]);
        lemma_row_bytes_no_end_row(r.drop_first());
        let head = value_bytes(r[0]);
        let tail = row_bytes(r.drop_first());
        assert forall|i: int| 0 <= i < row_bytes(r).len() implies row_bytes(r)[i] != END_ROW by {
            if i < head.len() {
                assert(row_bytes(r)[i] == head[i]);
            } else {
                assert(row_bytes(r)[i] == tail[i - head.len()]);
            }
        }
    }
}

/// Decoding the bytes of whole values, then more bytes, gives those values
/// followed by what the rest decodes to.
pub proof fn lemma_decode_row_prefix(r: RowModel, t: Seq<u8>)
    ensures
        decode_row(row_bytes(r) + t) == after(r, decode_row(t)),
    decreases r.len(),
{
    if r.len() == 0 {
        assert(row_bytes(r) + t =~= t);
        match decode_row(t) {
            Ok(s) => assert(r + s =~= s),
            Err(_) => {},
        }
    } else {
        let v = r[0];
        lemma_value_span(v);
        let span = value_bytes(v).drop_last();
        let rest = row_bytes(r.drop_first()) + t;
        assert(value_bytes(v) == span.push(END_VALUE));
        lemma_first_after(span, END_VALUE, rest);
        assert(row_bytes(r) + t =~= span.push(END_VALUE) + rest);
        lemma_decode_row_prefix(r.drop_first(), t);
        match decode_row(t) {
            Ok(s) => assert(seq![v] + (r.drop_first() + s) =~= r + s),
            Err(_) => {},
        }
    }
}

/// Decoding the bytes of whole rows, then more bytes, gives those rows
/// followed by what the rest decodes to.
pub proof fn lemma_decode_doc_prefix(d: DocModel, t: Seq<u8>)
    ensures
        decode_doc(doc_bytes(d) + t) == after(d, decode_doc(t)),
    decreases d.len(),
{
    if d.len() == 0 {
        assert(doc_bytes(d) + t =~= t);
        match decode_doc(t) {
            Ok(s) => assert(d + s =~= s),
            Err(_) => {},
        }
    } else {
        let r = d[0];
        lemma_row_bytes_no_end_row(r);
        let rest = doc_bytes(d.drop_first()) + t;
        lemma_first_after(row_bytes(r), END_ROW, rest);
        assert(doc_bytes(d) + t =~= row_bytes(r).push(END_ROW) + rest);
        lemma_decode_row_prefix(r, Seq::<u8>::empty());
        assert(row_bytes(r) + Seq::<u8>::empty() =~= row_bytes(r));
        assert(r + Seq::<ValueModel>::empty() =~= r);
        lemma_decode_doc_prefix(d.drop_first(), t);
        match decode_doc(t) {
            Ok(s) => assert(seq![r] + (d.drop_first() + s) =~= d + s),
            Err(_) => {},
        }
    }
}

/// Round trip: whatever rows of absent values and strings are encoded,
/// decoding the bytes gives the same rows back.
pub proof fn lemma_round_trip(d: DocModel)
    ensures
        decode_doc(doc_bytes(d)) == Ok::<DocModel, Fault>(d),
{
    lemma_decode_doc_prefix(d, Seq::<u8>::empty());
    assert(doc_bytes(d) + Seq::<u8>::empty() =~= doc_bytes(d));
    assert(d + Seq::<RowModel>::empty() =~= d);
}

/// Null preservation: a value written as absent decodes as absent, and its
/// bytes differ from those of an empty string.
pub proof fn lemma_null_preserved(d: DocModel, i: int, j: int)
    requires
        0 <= i < d.len(),
        0 <= j < d[i].len(),
        d[i][j] is None,
    ensures
        decode_doc(doc_bytes(d)) is Ok,
        decode_doc(doc_bytes(d))->Ok_0[i][j] is None,
        value_bytes(None) != value_bytes(Some(Seq::<char>::empty())),
{
    lemma_round_trip(d);
    assert(value_bytes(None).len() == 2);
    assert(encode_utf8(Seq::<char>::empty()) =~= Seq::<u8>::empty());
    assert(value_bytes(Some(Seq::<char>::empty())).len() == 1);
}

/// A buffer whose last row has no row terminator fails with
/// `UnterminatedRow`, after any number of well-formed rows.
pub proof fn lemma_unterminated_row(d: DocModel, t: Seq<u8>)
    requires
        t.len() > 0,
        forall|i: int| 0 <= i < t.len() ==> t[i] != END_ROW,
    ensures
        decode_doc(doc_bytes(d) + t) == Err::<DocModel, Fault>(Fault::UnterminatedRow),
{
    lemma_decode_doc_prefix(d, t);
    if terminated(t, END_ROW) {
        let p = first_of(t, END_ROW);
        assert(is_first(t, END_ROW, p));
    }
}

/// A row whose last value has no value terminator fails with
/// `UnterminatedValue`, after any number of well-formed rows and values.
pub proof fn lemma_unterminated_value(d: DocModel, r: RowModel, t: Seq<u8>)
    requires
        t.len() > 0,
        forall|i: int| 0 <= i < t.len() ==> t[i] != END_ROW && t[i] != END_VALUE,
    ensures
        decode_doc(doc_bytes(d) + (row_bytes(r) + t).push(END_ROW)) == Err::<DocModel, Fault>(
            Fault::UnterminatedValue,
        ),
{
    let span = row_bytes(r) + t;
    lemma_row_bytes_no_end_row(r);
    assert forall|i: int| 0 <= i < span.len() implies span[i] != END_ROW by {
        if i >= row_bytes(r).len() {
            assert(span[i] == t[i - row_bytes(r).len()]);
        }
    }
    lemma_first_after(span, END_ROW, Seq::<u8>::empty());
    assert(span.push(END_ROW) + Seq::<u8>::empty() =~= span.push(END_ROW));
    lemma_decode_doc_prefix(d, span.push(END_ROW));
    lemma_decode_row_prefix(r, t);
    if terminated(t, END_VALUE) {
        let p = first_of(t, END_VALUE);
        assert(is_first(t, END_VALUE, p));
    }
}

/// A value span that is neither the null marker nor UTF-8 fails with
/// `BadUtf8`, after any number of well-formed rows and values, whatever
/// follows its row.
pub proof fn lemma_bad_utf8(d: DocModel, r: RowModel, s: Seq<u8>, t: Seq<u8>)
    requires
        forall|i: int| 0 <= i < s.len() ==> s[i] != END_ROW && s[i] != END_VALUE,
        s != seq![NULL_VALUE],
        !valid_utf8(s),
    ensures
        decode_doc(doc_bytes(d) + (row_bytes(r) + s.push(END_VALUE)).push(END_ROW) + t) == Err::<
            DocModel,
            Fault,
        >(Fault::BadUtf8),
{
    let span = row_bytes(r) + s.push(END_VALUE);
    lemma_row_bytes_no_end_row(r);
    assert forall|i: int| 0 <= i < span.len() implies span[i] != END_ROW by {
        if i >= row_bytes(r).len() {
            assert(span[i] == s.push(END_VALUE)[i - row_bytes(r).len()]);
        }
    }
    lemma_first_after(span, END_ROW, t);
    assert(doc_bytes(d) + span.push(END_ROW) + t =~= doc_bytes(d) + (span.push(END_ROW) + t));
    lemma_decode_doc_prefix(d, span.push(END_ROW) + t);
    lemma_decode_row_prefix(r, s.push(END_VALUE));
    lemma_first_after(s, END_VALUE, Seq::<u8>::empty());
    assert(s.push(END_VALUE) + Seq::<u8>::empty() =~= s.push(END_VALUE));
}

} // verus!
