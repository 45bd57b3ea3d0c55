//! Lazy, zero-copy scanning of a buffer into rows and of a row into values.
use vstd::prelude::*;
use vstd::utf8::*;
use crate::error::Error;
use crate::format::{decode_value, first_of, is_first, terminated, END_ROW, END_VALUE, NULL_VALUE};

verus! {

/// Relies on `std::str::from_utf8`: it succeeds exactly on valid UTF-8, and
/// the string it returns views the given bytes as the characters they encode.
#[verifier::external_body]
fn str_from_utf8<'a>(bytes: &'a [u8]) -> (r: Result<&'a str, std::str::Utf8Error>)
    ensures
        r is Ok <==> valid_utf8(bytes@),
        r is Ok ==> r->Ok_0@ == decode_utf8(bytes@),
{
    std::str::from_utf8(bytes)
}

/// The position of the first `x` in `bytes`, if any.
fn find_byte(bytes: &[u8], x: u8) -> (r: Option<usize>)
    ensures
        match r {
            Some(i) => is_first(bytes@, x, i as int),
            None => !terminated(bytes@, x),
        },
{
    let mut i: usize = 0;
    while i < bytes.len()
        invariant
            i <= bytes@.len(),
            forall|j: int| 0 <= j < i ==> bytes@[j] != x,
        decreases bytes@.len() - i,
    {
        if bytes[i] == x {
            return Some(i);
        }
        i = i + 1;
    }
    assert forall|k: int| !is_first(bytes@, x, k) by {
        if 0 <= k < bytes@.len() {
            assert(bytes@[k] != x);
        }
    }
    None
}

/// Splits `bytes` around the byte at `p`: what stands before it and what
/// stands after it.
fn split_around<'a>(bytes: &'a [u8], p: usize) -> (r: (&'a [u8], &'a [u8]))
    requires
        p < bytes@.len(),
    ensures
        r.0@ == bytes@.take(p as int),
        r.1@ == bytes@.skip(p + 1),
{
    let (head, rest) = bytes.split_at(p);
    let tail = &rest[1..rest.len()];
    assert(head@ =~= bytes@.take(p as int));
    assert(tail@ =~= bytes@.skip(p + 1));
    (head, tail)
}

/// Reads an RSV document.
pub struct RsvReader<'a> {
    data: &'a [u8],
}

/// Reads an RSV row.
pub struct RsvRow<'a> {
    data: &'a [u8],
}

/// The rows of a document that are still to be read.
pub struct RsvRows<'a> {
    remain: &'a [u8],
}

/// The values of a row that are still to be read.
pub struct RsvValues<'a> {
    remain: &'a [u8],
}

impl<'a> RsvReader<'a> {
    /// The buffer being read.
    pub closed spec fn data(&self) -> Seq<u8> {
        self.data@
    }

    /// Creates a new `RsvReader` from the provided buffer.
    pub fn new(data: &'a [u8]) -> (r: Self)
        ensures
            r.data() == data@,
    {
        RsvReader { data }
    }

    /// Iterates over the rows in the RSV document.
    pub fn rows(&self) -> (r: RsvRows<'a>)
        ensures
            r.remaining() == self.data(),
    {
        RsvRows { remain: self.data }
    }
}

impl<'a> RsvRows<'a> {
    /// The bytes not yet read.
    pub closed spec fn remaining(&self) -> Seq<u8> {
        self.remain@
    }

    /// Reads the next row. At the end of the buffer there is none; where the
    /// rest of the buffer has no row terminator, the error comes back on this
    /// and on every later call, for nothing is consumed.
    pub fn next(&mut self) -> (r: Option<Result<RsvRow<'a>, Error>>)
        ensures
            old(self).remaining().len() == 0 ==> r is None && final(self).remaining()
                == old(self).remaining(),
            old(self).remaining().len() > 0 && !terminated(old(self).remaining(), END_ROW) ==> {
                &&& r is Some && r->Some_0 is Err
                &&& r->Some_0->Err_0 is UnterminatedRow
                &&& final(self).remaining() == old(self).remaining()
            },
            old(self).remaining().len() > 0 && terminated(old(self).remaining(), END_ROW) ==> {
                let p = first_of(old(self).remaining(), END_ROW);
                &&& r is Some && r->Some_0 is Ok
                &&& r->Some_0->Ok_0.data() == old(self).remaining().take(p)
                &&& final(self).remaining() == old(self).remaining().skip(p + 1)
            },
    {
        if self.remain.len() == 0 {
            return None;
        }
        match find_byte(self.remain, END_ROW) {
            None => Some(Err(Error::UnterminatedRow)),
            Some(p) => {
                let (row, rest) = split_around(self.remain, p);
                self.remain = rest;
                Some(Ok(RsvRow::new(row)))
            },
        }
    }
}

impl<'a> RsvRow<'a> {
    /// The bytes of the row, without its terminator.
    pub closed spec fn data(&self) -> Seq<u8> {
        self.data@
    }

    /// Creates a new `RsvRow` from the provided buffer.
    ///
    /// This generally won't be called directly.
    pub fn new(data: &'a [u8]) -> (r: Self)
        ensures
            r.data() == data@,
    {
        RsvRow { data }
    }

    /// Iterates over the values in the RSV row.
    pub fn values(&self) -> (r: RsvValues<'a>)
        ensures
            r.remaining() == self.data(),
    {
        RsvValues { remain: self.data }
    }
}

impl<'a> RsvValues<'a> {
    /// The bytes not yet read.
    pub closed spec fn remaining(&self) -> Seq<u8> {
        self.remain@
    }

    /// Reads the next value: `None` for the null marker, else the span's
    /// text, borrowed from the buffer. At the end of the row there is none;
    /// where the rest of the row has no value terminator, the error comes
    /// back on this and on every later call, for nothing is consumed.
    pub fn next(&mut self) -> (r: Option<Result<Option<&'a str>, Error>>)
        ensures
            old(self).remaining().len() == 0 ==> r is None && final(self).remaining()
                == old(self).remaining(),
            old(self).remaining().len() > 0 && !terminated(old(self).remaining(), END_VALUE) ==> {
                &&& r is Some && r->Some_0 is Err
                &&& r->Some_0->Err_0 is UnterminatedValue
                &&& final(self).remaining() == old(self).remaining()
            },
            old(self).remaining().len() > 0 && terminated(old(self).remaining(), END_VALUE) ==> {
                let p = first_of(old(self).remaining(), END_VALUE);
                &&& r is Some
                &&& match decode_value(old(self).remaining().take(p)) {
                    Ok(v) => r->Some_0 is Ok && r->Some_0->Ok_0.deep_view() == v,
                    Err(f) => r->Some_0 is Err && r->Some_0->Err_0.fault() == f,
                }
                &&& final(self).remaining() == old(self).remaining().skip(p + 1)
            },
    {
        if self.remain.len() == 0 {
            return None;
        }
        match find_byte(self.remain, END_VALUE) {
            None => Some(Err(Error::UnterminatedValue)),
            Some(p) => {
                let (span, rest) = split_around(self.remain, p);
                self.remain = rest;
                if span.len() == 1 && span[0] == NULL_VALUE {
                    assert(span@ =~= seq![NULL_VALUE]);
                    Some(Ok(None))
                } else {
                    assert(span@ != seq![NULL_VALUE]);
                    match str_from_utf8(span) {
                        Ok(s) => Some(Ok(Some(s))),
                        Err(e) => Some(Err(Error::BadUTF8(e))),
                    }
                }
            },
        }
    }
}

} // verus!
