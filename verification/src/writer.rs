//! The encoder: accumulates rows of fields in a byte buffer.
//!
//! Each call to `write_row` appends one row, preceded by a line feed when the
//! buffer already holds something, so rows are joined by exactly one
//! separator and the buffer never ends in one.  A field is quote-wrapped
//! exactly when it contains a special byte.

use vstd::prelude::*;

use crate::format::BACKSLASH;
use crate::format::CARRIAGE_RETURN;
use crate::format::DEFAULT_DELIMITER;
use crate::format::NEWLINE;
use crate::format::QUOTE;
use crate::format::encoded_field;
use crate::format::encoded_row;
use crate::format::is_special_byte;
use crate::format::needs_quoting;

verus! {

/// What a `Writer` holds: the bytes accumulated so far and the delimiter it
/// joins fields with.
pub ghost struct WriterView {
    pub buffer: Seq<u8>,
    pub delimiter: u8,
}

/// The encoder.  Rows are pushed with `write_row`; the accumulated bytes are
/// read back with `to_buffer`.
pub struct Writer {
    buffer: Vec<u8>,
    delimiter: u8,
}

impl View for Writer {
    type V = WriterView;

    closed spec fn view(&self) -> WriterView {
        WriterView { buffer: self.buffer@, delimiter: self.delimiter }
    }
}

impl Writer {
    /// A writer with an empty buffer and the default delimiter.
    pub fn new() -> (w: Writer)
        ensures
            w@.buffer == Seq::<u8>::empty(),
            w@.delimiter == DEFAULT_DELIMITER,
    {
        let w = Writer { buffer: Vec::new(), delimiter: DEFAULT_DELIMITER };
        proof {
            assert(w.buffer@ =~= Seq::<u8>::empty());
        }
        w
    }

    /// A writer with an empty buffer and a chosen delimiter.
    pub fn with_delimiter(delimiter: u8) -> (w: Writer)
        ensures
            w@.buffer == Seq::<u8>::empty(),
            w@.delimiter == delimiter,
    {
        let w = Writer { buffer: Vec::new(), delimiter };
        proof {
            assert(w.buffer@ =~= Seq::<u8>::empty());
        }
        w
    }

    /// Whether `b` forces the field holding it to be quote-wrapped.
    fn is_special(&self, b: u8) -> (r: bool)
        ensures
            r == is_special_byte(b, self@.delimiter),
    {
        b == QUOTE || b == NEWLINE || b == CARRIAGE_RETURN || b == BACKSLASH || b == self.delimiter
    }

    /// Whether some byte of `col` is special, so the whole field must be
    /// quote-wrapped.
    fn requires_escape(&self, col: &Vec<u8>) -> (r: bool)
        ensures
            r == needs_quoting(col@, self@.delimiter),
    {
        let mut i: usize = 0;
        while i < col.len()
            invariant
                i <= col.len(),
                forall|j: int| 0 <= j < i ==> !is_special_byte(col@[j], self@.delimiter),
            decreases col.len() - i,
        {
            if self.is_special(col[i]) {
                assert(is_special_byte(col@[i as int], self@.delimiter));
                return true;
            }
            i += 1;
        }
        false
    }

    /// Appends the encoding of one field to the buffer: the raw bytes, inside
    /// a pair of quote bytes when any of them is special.
    fn write_col(&mut self, col: &Vec<u8>)
        ensures
            final(self)@.delimiter == old(self)@.delimiter,
            final(self)@.buffer == old(self)@.buffer + encoded_field(col@, old(self)@.delimiter),
    {
        let escape = self.requires_escape(col);
        if escape {
            self.buffer.push(QUOTE);
        }
        let ghost opened = self.buffer@;
        let mut i: usize = 0;
        while i < col.len()
            invariant
                i <= col.len(),
                self@.delimiter == old(self)@.delimiter,
                self.buffer@ == opened + col@.take(i as int),
            decreases col.len() - i,
        {
            self.buffer.push(col[i]);
            proof {
                assert(col@.take(i + 1) =~= col@.take(i as int).push(col@[i as int]));
            }
            i += 1;
        }
        proof {
            assert(col@.take(col@.len() as int) =~= col@);
        }
        if escape {
            self.buffer.push(QUOTE);
            proof {
                assert(self.buffer@ =~= old(self)@.buffer + (seq![QUOTE] + col@ + seq![QUOTE]));
            }
        }
    }

    /// Appends one row: a line feed first when the buffer is non-empty, then
    /// the fields joined by the delimiter, each quote-wrapped exactly when it
    /// holds a special byte.
    pub fn write_row(&mut self, row: &Vec<Vec<u8>>)
        ensures
            final(self)@.delimiter == old(self)@.delimiter,
            final(self)@.buffer == old(self)@.buffer + (
                if old(self)@.buffer.len() > 0 {
                    seq![NEWLINE]
                } else {
                    Seq::<u8>::empty()
                }
            ) + encoded_row(row.deep_view(), old(self)@.delimiter),
    {
        if self.buffer.len() > 0 {
            self.buffer.push(NEWLINE);
        }
        let ghost opened = self.buffer@;
        let ghost d = self.delimiter;
        let mut i: usize = 0;
        while i < row.len()
            invariant
                i <= row.len(),
                self@.delimiter == d,
                self.buffer@ == opened + encoded_row(row.deep_view().take(i as int), d),
            decreases row.len() - i,
        {
            if i > 0 {
                let delim = self.delimiter;
                self.buffer.push(delim);
            }
            self.write_col(&row[i]);
            proof {
                lemma_row_deep_view_index(row, i as int);
                lemma_encoded_row_push(row.deep_view().take(i as int), row.deep_view()[i as int], d);
                assert(row.deep_view().take(i + 1) =~= row.deep_view().take(i as int).push(
                    row.deep_view()[i as int],
                ));
                if i > 0 {
                    assert(self.buffer@ =~= opened + encoded_row(row.deep_view().take(i + 1), d));
                } else {
                    assert(row.deep_view().take(1)[0] == row.deep_view()[0]);
                    assert(self.buffer@ =~= opened + encoded_row(row.deep_view().take(i + 1), d));
                }
            }
            i += 1;
        }
        proof {
            assert(row.deep_view().take(row.deep_view().len() as int) =~= row.deep_view());
        }
    }

    /// The bytes accumulated so far, for inspection without consuming them.
    pub fn to_buffer(&self) -> (r: &Vec<u8>)
        ensures
            r@ == self@.buffer,
    {
        &self.buffer
    }
}

/// The deep view of a row of byte fields reads each field as its byte
/// sequence.
pub proof fn lemma_row_deep_view_index(row: &Vec<Vec<u8>>, i: int)
    requires
        0 <= i < row@.len(),
    ensures
        row.deep_view().len() == row@.len(),
        row.deep_view()[i] == row@[i]@,
{
    assert(row@[i].deep_view() =~= row@[i]@);
}

/// Appending a field to a row appends one delimiter (when the row was
/// non-empty) and the field's encoding to the row's encoding.
pub proof fn lemma_encoded_row_push(row: Seq<Seq<u8>>, field: Seq<u8>, delimiter: u8)
    ensures
        encoded_row(row.push(field), delimiter) == if row.len() == 0 {
            encoded_field(field, delimiter)
        } else {
            encoded_row(row, delimiter) + seq![delimiter] + encoded_field(field, delimiter)
        },
    decreases row.len(),
{
    if row.len() == 0 {
        assert(row.push(field) =~= seq![field]);
        assert(encoded_row(seq![field], delimiter) == encoded_field(field, delimiter));
    } else {
        lemma_encoded_row_push(row.drop_first(), field, delimiter);
        assert(row.push(field).drop_first() =~= row.drop_first().push(field));
        assert(row.push(field)[0] == row[0]);
        if row.len() == 1 {
            assert(row.drop_first().len() == 0);
            assert(encoded_row(row, delimiter) == encoded_field(row[0], delimiter));
            assert(encoded_row(row.push(field), delimiter) =~= encoded_row(row, delimiter) + seq![
                delimiter,
            ] + encoded_field(field, delimiter));
        } else {
            assert(encoded_row(row.push(field), delimiter) =~= encoded_row(row, delimiter) + seq![
                delimiter,
            ] + encoded_field(field, delimiter));
        }
    }
}

} // verus!
