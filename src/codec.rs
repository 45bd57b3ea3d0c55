//! Whole documents at once: encoding rows of optional strings, and decoding
//! a buffer into owned or borrowed rows, stopping at the first error.
use vstd::prelude::*;
use crate::error::{Error, Fault};
use crate::format::{
    decode_doc, decode_row, doc_bytes, first_of, lemma_doc_bytes_push, lemma_row_bytes_push,
    row_bytes, terminated, END_ROW,
};
use crate::reader::RsvReader;
use crate::writer::RsvWriter;

verus! {

/// `items` put in front of what `rest` decodes to, or the fault of `rest`.
pub open spec fn after<T>(items: Seq<T>, rest: Result<Seq<T>, Fault>) -> Result<Seq<T>, Fault> {
    match rest {
        Ok(s) => Ok(items + s),
        Err(f) => Err(f),
    }
}

/// Encodes a document: each row's values, each followed by the value
/// terminator, then the row terminator. No rows give no bytes.
pub fn encode_rsv(rows: &[Vec<Option<String>>]) -> (r: Vec<u8>)
    ensures
        r@ == doc_bytes(rows.deep_view()),
{
    let ghost d = rows.deep_view();
    let mut writer = RsvWriter::new();
    let mut i: usize = 0;
    while i < rows.len()
        invariant
            i <= rows@.len(),
            d == rows.deep_view(),
            i == 0 ==> writer.bytes() == Seq::<u8>::empty() && !writer.in_row(),
            i > 0 ==> writer.in_row() && writer.bytes().push(END_ROW) == doc_bytes(d.take(i as int)),
        decreases rows@.len() - i,
    {
        let row = &rows[i];
        writer.start_row();
        proof {
            if i == 0 {
                assert(d.take(0) =~= Seq::<Seq<Option<Seq<char>>>>::empty());
            }
            assert(row.deep_view().take(0) =~= Seq::<Option<Seq<char>>>::empty());
        }
        let mut j: usize = 0;
        while j < row.len()
            invariant
                i < rows@.len(),
                j <= row@.len(),
                row == &rows@[i as int],
                writer.in_row(),
                writer.bytes() == doc_bytes(d.take(i as int)) + row_bytes(
                    row.deep_view().take(j as int),
                ),
            decreases row@.len() - j,
        {
            let value: Option<&str> = match &row[j] {
                Some(s) => Some(s.as_str()),
                None => None,
            };
            writer.push(value);
            proof {
                let vs = row.deep_view();
                lemma_row_bytes_push(vs.take(j as int), vs[j as int]);
                assert(vs.take(j + 1) =~= vs.take(j as int).push(vs[j as int]));
            }
            j = j + 1;
        }
        proof {
            assert(row.deep_view().take(j as int) =~= row.deep_view());
            lemma_doc_bytes_push(d.take(i as int), d[i as int]);
            assert(d.take(i + 1) =~= d.take(i as int).push(d[i as int]));
        }
        i = i + 1;
    }
    proof {
        assert(d.take(i as int) =~= d);
        if i == 0 {
            assert(d =~= Seq::<Seq<Option<Seq<char>>>>::empty());
        }
    }
    writer.finish()
}

/// Decodes a document into values that borrow from `data`. The result is
/// what the bytes stand for; the first error met stops the decoding.
pub fn decode_rsv_borrowed(data: &[u8]) -> (r: Result<Vec<Vec<Option<&str>>>, Error>)
    ensures
        match decode_doc(data@) {
            Ok(d) => r is Ok && r->Ok_0.deep_view() == d,
            Err(f) => r is Err && r->Err_0.fault() == f,
        },
{
    let reader = RsvReader::new(data);
    let mut rows = reader.rows();
    let mut out: Vec<Vec<Option<&str>>> = Vec::new();
    loop
        invariant
            decode_doc(data@) == after(out.deep_view(), decode_doc(rows.remaining())),
        decreases rows.remaining().len(),
    {
        let ghost rem = rows.remaining();
        match rows.next() {
            None => {
                assert(out.deep_view() + Seq::<Seq<Option<Seq<char>>>>::empty() =~= out.deep_view());
                return Ok(out);
            },
            Some(Err(e)) => {
                return Err(e);
            },
            Some(Ok(row)) => {
                let mut values = row.values();
                let mut cells: Vec<Option<&str>> = Vec::new();
                loop
                    invariant
                        decode_row(row.data()) == after(
                            cells.deep_view(),
                            decode_row(values.remaining()),
                        ),
                        decode_doc(data@) == after(out.deep_view(), decode_doc(rem)),
                        rem.len() > 0 && terminated_row(rem, row.data(), rows.remaining()),
                    ensures
                        decode_row(row.data()) == Ok::<Seq<Option<Seq<char>>>, Fault>(
                            cells.deep_view(),
                        ),
                    decreases values.remaining().len(),
                {
                    match values.next() {
                        None => {
                            assert(cells.deep_view() + Seq::<Option<Seq<char>>>::empty()
                                =~= cells.deep_view());
                            break ;
                        },
                        Some(Err(e)) => {
                            return Err(e);
                        },
                        Some(Ok(v)) => {
                            let ghost before = cells.deep_view();
                            cells.push(v);
                            assert(cells.deep_view() =~= before.push(v.deep_view()));
                            proof {
                                let tail = decode_row(values.remaining());
                                if tail is Ok {
                                    assert(before + (seq![v.deep_view()] + tail->Ok_0)
                                        =~= cells.deep_view() + tail->Ok_0);
                                }
                            }
                        },
                    }
                }
                let ghost before = out.deep_view();
                out.push(cells);
                proof {
                    assert(out.deep_view() =~= before.push(cells.deep_view()));
                    let tail = decode_doc(rows.remaining());
                    if tail is Ok {
                        assert(before + (seq![cells.deep_view()] + tail->Ok_0)
                            =~= out.deep_view() + tail->Ok_0);
                    }
                }
            },
        }
    }
}

/// `row` is the first row of `rem`, and `rest` what follows its terminator.
pub open spec fn terminated_row(rem: Seq<u8>, row: Seq<u8>, rest: Seq<u8>) -> bool {
    &&& terminated(rem, END_ROW)
    &&& row == rem.take(first_of(rem, END_ROW))
    &&& rest == rem.skip(first_of(rem, END_ROW) + 1)
}

/// Decodes a document into owned values. The result is what the bytes stand
/// for; the first error met stops the decoding.
pub fn decode_rsv(data: &[u8]) -> (r: Result<Vec<Vec<Option<String>>>, Error>)
    ensures
        match decode_doc(data@) {
            Ok(d) => r is Ok && r->Ok_0.deep_view() == d,
            Err(f) => r is Err && r->Err_0.fault() == f,
        },
{
    let rows = match decode_rsv_borrowed(data) {
        Ok(rows) => rows,
        Err(e) => {
            return Err(e);
        },
    };
    let mut out: Vec<Vec<Option<String>>> = Vec::new();
    let mut i: usize = 0;
    while i < rows.len()
        invariant
            i <= rows@.len(),
            out.deep_view() == rows.deep_view().take(i as int),
        decreases rows@.len() - i,
    {
        let row = &rows[i];
        let mut cells: Vec<Option<String>> = Vec::new();
        let mut j: usize = 0;
        while j < row.len()
            invariant
                i < rows@.len(),
                j <= row@.len(),
                row == &rows@[i as int],
                cells.deep_view() == row.deep_view().take(j as int),
            decreases row@.len() - j,
        {
            let cell: Option<String> = match row[j] {
                Some(s) => Some(s.to_owned()),
                None => None,
            };
            let ghost before = cells.deep_view();
            cells.push(cell);
            assert(cells.deep_view() =~= before.push(cell.deep_view()));
            assert(cell.deep_view() == row.deep_view()[j as int]);
            assert(cells.deep_view() =~= row.deep_view().take(j + 1));
            j = j + 1;
        }
        let ghost before = out.deep_view();
        out.push(cells);
        assert(cells.deep_view() =~= row.deep_view());
        assert(out.deep_view() =~= before.push(cells.deep_view()));
        assert(row.deep_view() == rows.deep_view()[i as int]);
        assert(out.deep_view() =~= rows.deep_view().take(i + 1));
        i = i + 1;
    }
    assert(rows.deep_view().take(i as int) =~= rows.deep_view());
    Ok(out)
}

} // verus!
