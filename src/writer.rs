//! The writer: an append-only state machine that lays rows of values out in
//! a byte buffer.
use vstd::prelude::*;
use vstd::utf8::encode_utf8;
use crate::format::{value_bytes, END_ROW, END_VALUE, NULL_VALUE};

verus! {

/// Writes an RSV document to an internal `Vec<u8>`.
#[derive(Clone, Default)]
pub struct RsvWriter {
    buffer: Vec<u8>,
    started_row: bool,
}

impl RsvWriter {
    /// The bytes written so far. While a row is open, its terminator is still
    /// owed and not among them.
    pub closed spec fn bytes(&self) -> Seq<u8> {
        self.buffer@
    }

    /// A row has been started, so a row terminator is owed.
    pub closed spec fn in_row(&self) -> bool {
        self.started_row
    }

    /// Creates a new `RsvWriter`.
    pub fn new() -> (r: Self)
        ensures
            r.bytes() == Seq::<u8>::empty(),
            !r.in_row(),
    {
        RsvWriter { buffer: Vec::new(), started_row: false }
    }

    /// Creates a new `RsvWriter` with the specified capacity for the internal buffer.
    pub fn with_capacity(capacity: usize) -> (r: Self)
        ensures
            r.bytes() == Seq::<u8>::empty(),
            !r.in_row(),
    {
        RsvWriter { buffer: Vec::with_capacity(capacity), started_row: false }
    }

    /// Creates a new `RsvWriter` that appends to the given buffer. No row is
    /// open, whatever the buffer holds.
    pub fn with_buffer(buffer: Vec<u8>) -> (r: Self)
        ensures
            r.bytes() == buffer@,
            !r.in_row(),
    {
        RsvWriter { buffer, started_row: false }
    }

    /// Starts a new row, terminating the previous one if there was one.
    ///
    /// This must be called before pushing any values.
    pub fn start_row(&mut self)
        ensures
            final(self).bytes() == if old(self).in_row() {
                old(self).bytes().push(END_ROW)
            } else {
                old(self).bytes()
            },
            final(self).in_row(),
    {
        if self.started_row {
            self.buffer.push(END_ROW);
        }
        self.started_row = true;
    }

    /// Pushes a value to the current row: its UTF-8 bytes, or the null
    /// marker, then the value terminator.
    ///
    /// A row must have been started: pushing before `start_row` is outside
    /// this function's contract, not a recoverable error.
    pub fn push(&mut self, value: Option<&str>)
        requires
            old(self).in_row(),
        ensures
            final(self).bytes() == old(self).bytes() + value_bytes(value.deep_view()),
            final(self).in_row(),
    {
        match value {
            Some(s) => {
                let bytes = s.as_bytes();
                let mut i: usize = 0;
                while i < bytes.len()
                    invariant
                        i <= bytes@.len(),
                        bytes@ == encode_utf8(s@),
                        self.started_row,
                        self.buffer@ == old(self).buffer@ + bytes@.take(i as int),
                    decreases bytes@.len() - i,
                {
                    self.buffer.push(bytes[i]);
                    i = i + 1;
                    assert(bytes@.take(i as int) =~= bytes@.take(i - 1).push(bytes@[i - 1]));
                }
                assert(bytes@.take(i as int) =~= bytes@);
            },
            None => self.buffer.push(NULL_VALUE),
        }
        self.buffer.push(END_VALUE);
        proof {
            assert(self.buffer@ =~= old(self).buffer@ + value_bytes(value.deep_view()));
        }
    }

    /// Pushes a string value to the current row.
    pub fn push_str(&mut self, value: &str)
        requires
            old(self).in_row(),
        ensures
            final(self).bytes() == old(self).bytes() + value_bytes(Some(value@)),
            final(self).in_row(),
    {
        self.push(Some(value))
    }

    /// Pushes an absent value to the current row.
    pub fn push_null(&mut self)
        requires
            old(self).in_row(),
        ensures
            final(self).bytes() == old(self).bytes() + value_bytes(None),
            final(self).in_row(),
    {
        self.push(None)
    }

    /// Finishes writing and returns the inner buffer, with the open row's
    /// terminator.
    pub fn finish(self) -> (r: Vec<u8>)
        ensures
            r@ == if self.in_row() {
                self.bytes().push(END_ROW)
            } else {
                self.bytes()
            },
    {
        let mut buffer = self.buffer;
        if self.started_row {
            buffer.push(END_ROW);
        }
        buffer
    }
}

} // verus!
