//! The wire format shared by the reader and the writer.
//!
//! A buffer holds rows joined by a line feed, each row holds fields joined by
//! a single delimiter byte, and a field is wrapped in quote bytes exactly when
//! it contains a byte with structural meaning.  The spec functions here say
//! what a buffer means; the lemmas at the end state the round-trip laws that
//! relate encoding and decoding.

use vstd::prelude::*;

verus! {

/// The quote byte that wraps a field containing special bytes.
pub const QUOTE: u8 = 34;

/// The byte that separates rows in an encoded buffer.
pub const NEWLINE: u8 = 10;

/// A carriage return just before a line feed is not part of the line.
pub const CARRIAGE_RETURN: u8 = 13;

/// A backslash counts as special so that escape-minded producers round-trip.
pub const BACKSLASH: u8 = 92;

/// The delimiter both sides use unless configured otherwise.
pub const DEFAULT_DELIMITER: u8 = 44;

/// A byte with structural meaning: it forces the field that holds it to be
/// quote-wrapped by the writer.
pub open spec fn is_special_byte(b: u8, delimiter: u8) -> bool {
    b == QUOTE || b == NEWLINE || b == CARRIAGE_RETURN || b == BACKSLASH || b == delimiter
}

/// A field is escaped if and only if some byte of it is special.
pub open spec fn needs_quoting(field: Seq<u8>, delimiter: u8) -> bool {
    exists|i: int| 0 <= i < field.len() && is_special_byte(field[i], delimiter)
}

/// The bytes the writer emits for one field.
pub open spec fn encoded_field(field: Seq<u8>, delimiter: u8) -> Seq<u8> {
    if needs_quoting(field, delimiter) {
        seq![QUOTE] + field + seq![QUOTE]
    } else {
        field
    }
}

/// The bytes the writer emits for one row: fields joined by the delimiter,
/// with no separator before the first or after the last.
pub open spec fn encoded_row(row: Seq<Seq<u8>>, delimiter: u8) -> Seq<u8>
    decreases row.len(),
{
    if row.len() == 0 {
        Seq::empty()
    } else if row.len() == 1 {
        encoded_field(row[0], delimiter)
    } else {
        encoded_field(row[0], delimiter) + seq![delimiter] + encoded_row(row.drop_first(), delimiter)
    }
}

/// The bytes the writer accumulates for a sequence of rows: rows joined by a
/// line feed, with no separator before the first or after the last.
pub open spec fn encoded_rows(rows: Seq<Seq<Seq<u8>>>, delimiter: u8) -> Seq<u8>
    decreases rows.len(),
{
    if rows.len() == 0 {
        Seq::empty()
    } else if rows.len() == 1 {
        encoded_row(rows[0], delimiter)
    } else {
        encoded_row(rows[0], delimiter) + seq![NEWLINE] + encoded_rows(rows.drop_first(), delimiter)
    }
}

/// The index of the first occurrence of `b` in `s`, or `s.len()` when `b`
/// does not occur.
pub open spec fn find_byte(s: Seq<u8>, b: u8) -> int
    decreases s.len(),
{
    if s.len() == 0 {
        0
    } else if s[0] == b {
        0
    } else {
        1 + find_byte(s.drop_first(), b)
    }
}

/// `find_byte` returns an in-range index, nothing before it matches, and the
/// byte at it matches when the index is in range.
pub proof fn lemma_find_byte(s: Seq<u8>, b: u8)
    ensures
        0 <= find_byte(s, b) <= s.len(),
        forall|j: int| 0 <= j < find_byte(s, b) ==> s[j] != b,
        find_byte(s, b) < s.len() ==> s[find_byte(s, b)] == b,
    decreases s.len(),
{
    if s.len() > 0 && s[0] != b {
        lemma_find_byte(s.drop_first(), b);
        assert forall|j: int| 0 <= j < find_byte(s, b) implies s[j] != b by {
            if j > 0 {
                assert(s.drop_first()[j - 1] == s[j]);
            }
        }
        if find_byte(s, b) < s.len() {
            assert(s.drop_first()[find_byte(s, b) - 1] == s[find_byte(s, b)]);
        }
    }
}

/// A line read from a buffer loses a carriage return standing at its very
/// end, so that both bare line feeds and carriage-return line feeds separate
/// rows.
pub open spec fn strip_trailing_cr(line: Seq<u8>) -> Seq<u8> {
    if line.len() > 0 && line.last() == CARRIAGE_RETURN {
        line.drop_last()
    } else {
        line
    }
}

/// The lines of a buffer: maximal runs between line feeds, each without its
/// separator and without a trailing carriage return.  A buffer that does not
/// end in a line feed still yields its last partial line; an empty buffer
/// yields no lines.
pub open spec fn lines_of(s: Seq<u8>) -> Seq<Seq<u8>>
    decreases s.len(),
{
    if s.len() == 0 {
        Seq::empty()
    } else {
        let i = find_byte(s, NEWLINE);
        if 0 <= i < s.len() && s[i] == NEWLINE {
            seq![strip_trailing_cr(s.take(i))] + lines_of(s.skip(i + 1))
        } else {
            seq![strip_trailing_cr(s)]
        }
    }
}

/// The bytes that count as whitespace when trimming a line or a field.
pub open spec fn is_whitespace_byte(b: u8) -> bool {
    b == 32 || b == 9 || b == 10 || b == 12 || b == 13
}

/// `s` without its leading whitespace.
pub open spec fn trimmed_front(s: Seq<u8>) -> Seq<u8>
    decreases s.len(),
{
    if s.len() > 0 && is_whitespace_byte(s.first()) {
        trimmed_front(s.drop_first())
    } else {
        s
    }
}

/// `s` without its trailing whitespace.
pub open spec fn trimmed_back(s: Seq<u8>) -> Seq<u8>
    decreases s.len(),
{
    if s.len() > 0 && is_whitespace_byte(s.last()) {
        trimmed_back(s.drop_last())
    } else {
        s
    }
}

/// `s` without leading or trailing whitespace.
pub open spec fn trimmed(s: Seq<u8>) -> Seq<u8> {
    trimmed_back(trimmed_front(s))
}

/// The pieces of `s` between occurrences of the delimiter.  Splitting never
/// yields fewer than one piece: a buffer without the delimiter is one field,
/// and every delimiter adds one more, possibly empty.
pub open spec fn split_on(s: Seq<u8>, delimiter: u8) -> Seq<Seq<u8>>
    decreases s.len(),
{
    let i = find_byte(s, delimiter);
    if 0 <= i < s.len() && s[i] == delimiter {
        seq![s.take(i)] + split_on(s.skip(i + 1), delimiter)
    } else {
        seq![s]
    }
}

/// The fields the reader produces for one line: the line (trimmed whole when
/// trimming is on) split on the delimiter, each field then trimmed when
/// trimming is on.
pub open spec fn parsed_fields(line: Seq<u8>, delimiter: u8, trim: bool) -> Seq<Seq<u8>> {
    let base = if trim {
        trimmed(line)
    } else {
        line
    };
    let fields = split_on(base, delimiter);
    if trim {
        fields.map(|i: int, f: Seq<u8>| trimmed(f))
    } else {
        fields
    }
}

/// Every row the reader produces for a whole buffer, header included.
pub open spec fn parsed_rows(s: Seq<u8>, delimiter: u8, trim: bool) -> Seq<Seq<Seq<u8>>> {
    lines_of(s).map(|i: int, l: Seq<u8>| parsed_fields(l, delimiter, trim))
}

/// A row whose fields hold no special byte: nothing in it needs quoting, so
/// its encoding is just the fields joined by the delimiter.
pub open spec fn row_is_plain(row: Seq<Seq<u8>>, delimiter: u8) -> bool {
    forall|j: int, k: int|
        0 <= j < row.len() && 0 <= k < row[j].len() ==> !is_special_byte(row[j][k], delimiter)
}

/// Rows all of whose fields hold no special byte.
pub open spec fn rows_are_plain(rows: Seq<Seq<Seq<u8>>>, delimiter: u8) -> bool {
    forall|i: int| 0 <= i < rows.len() ==> row_is_plain(rows[i], delimiter)
}

/// Appending a row to a buffer appends one line feed (when the buffer held
/// rows already) and the row's encoding: rows are joined by exactly one
/// separator and the buffer never ends in one.  This is what each
/// `Writer::write_row` call does to the buffer, stated over whole sequences
/// of rows.
pub proof fn lemma_encoded_rows_push(rows: Seq<Seq<Seq<u8>>>, row: Seq<Seq<u8>>, delimiter: u8)
    ensures
        encoded_rows(rows.push(row), delimiter) == if rows.len() == 0 {
            encoded_row(row, delimiter)
        } else {
            encoded_rows(rows, delimiter) + seq![NEWLINE] + encoded_row(row, delimiter)
        },
    decreases rows.len(),
{
    if rows.len() == 0 {
        assert(rows.push(row) =~= seq![row]);
        assert(encoded_rows(seq![row], delimiter) == encoded_row(row, delimiter));
    } else {
        lemma_encoded_rows_push(rows.drop_first(), row, delimiter);
        assert(rows.push(row).drop_first() =~= rows.drop_first().push(row));
        assert(rows.push(row)[0] == rows[0]);
        if rows.len() == 1 {
            assert(encoded_rows(rows, delimiter) == encoded_row(rows[0], delimiter));
            assert(encoded_rows(rows.push(row), delimiter) =~= encoded_rows(rows, delimiter)
                + seq![NEWLINE] + encoded_row(row, delimiter));
        } else {
            assert(encoded_rows(rows.push(row), delimiter) =~= encoded_rows(rows, delimiter)
                + seq![NEWLINE] + encoded_row(row, delimiter));
        }
    }
}

/// The encoding of a plain row holds no line feed and no carriage return,
/// provided the delimiter is neither.
proof fn lemma_encoded_row_plain_bytes(row: Seq<Seq<u8>>, delimiter: u8)
    requires
        delimiter != NEWLINE,
        delimiter != CARRIAGE_RETURN,
        row_is_plain(row, delimiter),
    ensures
        forall|k: int|
            0 <= k < encoded_row(row, delimiter).len() ==> (encoded_row(row, delimiter)[k]
                != NEWLINE && encoded_row(row, delimiter)[k] != CARRIAGE_RETURN),
    decreases row.len(),
{
    if row.len() == 0 {
    } else if row.len() == 1 {
        assert(!needs_quoting(row[0], delimiter));
        assert(encoded_row(row, delimiter) == row[0]);
    } else {
        assert(!needs_quoting(row[0], delimiter));
        let rest = row.drop_first();
        assert forall|j: int, k: int|
            0 <= j < rest.len() && 0 <= k < rest[j].len() implies !is_special_byte(
            rest[j][k],
            delimiter,
        ) by {
            assert(rest[j] == row[j + 1]);
        }
        lemma_encoded_row_plain_bytes(rest, delimiter);
        let s = encoded_row(row, delimiter);
        let f0 = row[0];
        let srest = encoded_row(rest, delimiter);
        assert forall|k: int| 0 <= k < s.len() implies (s[k] != NEWLINE && s[k]
            != CARRIAGE_RETURN) by {
            if k < f0.len() {
                assert(s[k] == f0[k]);
            } else if k == f0.len() {
                assert(s[k] == delimiter);
            } else {
                assert(s[k] == srest[k - f0.len() - 1]);
            }
        }
    }
}

/// Splitting the encoding of a plain row on the delimiter gives the fields
/// back.
proof fn lemma_split_encoded_row(row: Seq<Seq<u8>>, delimiter: u8)
    requires
        row.len() >= 1,
        row_is_plain(row, delimiter),
    ensures
        split_on(encoded_row(row, delimiter), delimiter) == row,
    decreases row.len(),
{
    if row.len() == 1 {
        assert(!needs_quoting(row[0], delimiter));
        let s = encoded_row(row, delimiter);
        assert(s == row[0]);
        assert forall|j: int| 0 <= j < s.len() implies s[j] != delimiter by {
            assert(!is_special_byte(row[0][j], delimiter));
        }
        lemma_find_byte_at(s, delimiter, s.len() as int);
        assert(split_on(s, delimiter) == seq![s]);
        assert(seq![s] =~= row);
    } else {
        assert(!needs_quoting(row[0], delimiter));
        let rest = row.drop_first();
        assert forall|j: int, k: int|
            0 <= j < rest.len() && 0 <= k < rest[j].len() implies !is_special_byte(
            rest[j][k],
            delimiter,
        ) by {
            assert(rest[j] == row[j + 1]);
        }
        lemma_split_encoded_row(rest, delimiter);
        let s = encoded_row(row, delimiter);
        let f0 = row[0];
        let srest = encoded_row(rest, delimiter);
        let i = f0.len() as int;
        assert forall|j: int| 0 <= j < i implies s[j] != delimiter by {
            assert(s[j] == f0[j]);
            assert(!is_special_byte(f0[j], delimiter));
        }
        assert(s[i] == delimiter);
        lemma_find_byte_at(s, delimiter, i);
        assert(s.take(i) =~= f0);
        assert(s.skip(i + 1) =~= srest);
        assert(split_on(s, delimiter) == seq![f0] + split_on(srest, delimiter));
        assert(seq![f0] + rest =~= row);
    }
}

/// The lines of an encoded buffer are exactly the encoded rows, provided the
/// rows are plain, each has at least one field, the delimiter is neither a
/// line feed nor a carriage return, and the last row does not encode to
/// nothing (a lone empty field).
proof fn lemma_lines_of_encoded_rows(rows: Seq<Seq<Seq<u8>>>, delimiter: u8)
    requires
        delimiter != NEWLINE,
        delimiter != CARRIAGE_RETURN,
        rows_are_plain(rows, delimiter),
        forall|i: int| 0 <= i < rows.len() ==> rows[i].len() >= 1,
        rows.len() > 0 ==> !(rows.last().len() == 1 && rows.last()[0].len() == 0),
    ensures
        lines_of(encoded_rows(rows, delimiter)) == rows.map(
            |i: int, r: Seq<Seq<u8>>| encoded_row(r, delimiter),
        ),
    decreases rows.len(),
{
    let mapped = rows.map(|i: int, r: Seq<Seq<u8>>| encoded_row(r, delimiter));
    if rows.len() == 0 {
        assert(lines_of(encoded_rows(rows, delimiter)) =~= mapped);
    } else if rows.len() == 1 {
        let s = encoded_rows(rows, delimiter);
        assert(s == encoded_row(rows[0], delimiter));
        assert(row_is_plain(rows[0], delimiter));
        if rows[0].len() == 1 {
            assert(!needs_quoting(rows[0][0], delimiter));
            assert(s == rows[0][0]);
            assert(s.len() > 0);
        } else {
            assert(s.len() > 0);
        }
        lemma_encoded_row_plain_bytes(rows[0], delimiter);
        lemma_find_byte_at(s, NEWLINE, s.len() as int);
        assert(lines_of(s) == seq![strip_trailing_cr(s)]);
        assert(s.last() != CARRIAGE_RETURN);
        assert(strip_trailing_cr(s) == s);
        assert(lines_of(s) =~= mapped);
    } else {
        let rest = rows.drop_first();
        assert forall|i: int| 0 <= i < rest.len() implies row_is_plain(rest[i], delimiter)
            && rest[i].len() >= 1 by {
            assert(rest[i] == rows[i + 1]);
        }
        assert(rest.last() == rows.last());
        lemma_lines_of_encoded_rows(rest, delimiter);
        let s = encoded_rows(rows, delimiter);
        let e0 = encoded_row(rows[0], delimiter);
        let srest = encoded_rows(rest, delimiter);
        assert(row_is_plain(rows[0], delimiter));
        lemma_encoded_row_plain_bytes(rows[0], delimiter);
        let i = e0.len() as int;
        assert forall|j: int| 0 <= j < i implies s[j] != NEWLINE by {
            assert(s[j] == e0[j]);
        }
        assert(s[i] == NEWLINE);
        lemma_find_byte_at(s, NEWLINE, i);
        assert(s.take(i) =~= e0);
        assert(s.skip(i + 1) =~= srest);
        assert(lines_of(s) == seq![strip_trailing_cr(s.take(i))] + lines_of(srest));
        if e0.len() > 0 {
            assert(e0.last() != CARRIAGE_RETURN);
        }
        assert(strip_trailing_cr(e0) == e0);
        let mrest = rest.map(|i: int, r: Seq<Seq<u8>>| encoded_row(r, delimiter));
        assert forall|j: int| 0 <= j < mapped.len() implies mapped[j] == (seq![e0] + mrest)[j] by {
            if j > 0 {
                assert(mrest[j - 1] == encoded_row(rest[j - 1], delimiter));
                assert(rest[j - 1] == rows[j]);
            }
        }
        assert(lines_of(s) =~= mapped);
    }
}

/// The round-trip law: a buffer encoded from plain rows decodes, without
/// trimming, back to exactly those rows.  Plain rows hold no delimiter,
/// quote, backslash, line feed or carriage return; each row must have at
/// least one field, and the last row must not be a lone empty field, since
/// such a row encodes to no bytes at all.
pub proof fn lemma_encode_then_decode(rows: Seq<Seq<Seq<u8>>>, delimiter: u8)
    requires
        delimiter != NEWLINE,
        delimiter != CARRIAGE_RETURN,
        rows_are_plain(rows, delimiter),
        forall|i: int| 0 <= i < rows.len() ==> rows[i].len() >= 1,
        rows.len() > 0 ==> !(rows.last().len() == 1 && rows.last()[0].len() == 0),
    ensures
        parsed_rows(encoded_rows(rows, delimiter), delimiter, false) == rows,
{
    lemma_lines_of_encoded_rows(rows, delimiter);
    let s = encoded_rows(rows, delimiter);
    let decoded = parsed_rows(s, delimiter, false);
    assert forall|i: int| 0 <= i < decoded.len() implies decoded[i] == rows[i] by {
        assert(lines_of(s)[i] == encoded_row(rows[i], delimiter));
        assert(decoded[i] == parsed_fields(encoded_row(rows[i], delimiter), delimiter, false));
        assert(row_is_plain(rows[i], delimiter));
        lemma_split_encoded_row(rows[i], delimiter);
    }
    assert(decoded =~= rows);
}

/// Round-trip idempotence: rows decoded from any buffer, as long as they
/// came out plain and the last did not come out as a lone empty field,
/// encode and decode back to themselves.
pub proof fn lemma_decode_encode_decode(s: Seq<u8>, delimiter: u8)
    requires
        delimiter != NEWLINE,
        delimiter != CARRIAGE_RETURN,
        rows_are_plain(parsed_rows(s, delimiter, false), delimiter),
        parsed_rows(s, delimiter, false).len() > 0 ==> !(parsed_rows(
            s,
            delimiter,
            false,
        ).last().len() == 1 && parsed_rows(s, delimiter, false).last()[0].len() == 0),
    ensures
        parsed_rows(
            encoded_rows(parsed_rows(s, delimiter, false), delimiter),
            delimiter,
            false,
        ) == parsed_rows(s, delimiter, false),
{
    let rows = parsed_rows(s, delimiter, false);
    assert forall|i: int| 0 <= i < rows.len() implies rows[i].len() >= 1 by {
        assert(rows[i] == parsed_fields(lines_of(s)[i], delimiter, false));
        lemma_parsed_fields_len(lines_of(s)[i], delimiter, false);
    }
    lemma_encode_then_decode(rows, delimiter);
}

/// Trimming the front is determined by a scan: dropping a leading run of
/// whitespace that ends at the first non-whitespace byte (or the end) is
/// exactly `trimmed_front`.
pub proof fn lemma_trimmed_front_at(s: Seq<u8>, i: int)
    requires
        0 <= i <= s.len(),
        forall|j: int| 0 <= j < i ==> is_whitespace_byte(s[j]),
        i < s.len() ==> !is_whitespace_byte(s[i]),
    ensures
        trimmed_front(s) == s.skip(i),
    decreases s.len(),
{
    if i == 0 {
        assert(s.skip(0) =~= s);
    } else {
        assert(is_whitespace_byte(s.first()));
        assert forall|j: int| 0 <= j < i - 1 implies is_whitespace_byte(s.drop_first()[j]) by {
            assert(s.drop_first()[j] == s[j + 1]);
        }
        if i - 1 < s.drop_first().len() {
            assert(s.drop_first()[i - 1] == s[i]);
        }
        lemma_trimmed_front_at(s.drop_first(), i - 1);
        assert(s.drop_first().skip(i - 1) =~= s.skip(i));
    }
}

/// Trimming the back is determined by a scan: dropping a trailing run of
/// whitespace that starts just after the last non-whitespace byte (or at the
/// start) is exactly `trimmed_back`.
pub proof fn lemma_trimmed_back_at(s: Seq<u8>, i: int)
    requires
        0 <= i <= s.len(),
        forall|j: int| i <= j < s.len() ==> is_whitespace_byte(s[j]),
        i > 0 ==> !is_whitespace_byte(s[i - 1]),
    ensures
        trimmed_back(s) == s.take(i),
    decreases s.len(),
{
    if i == s.len() {
        assert(s.take(i) =~= s);
    } else {
        assert(is_whitespace_byte(s.last()));
        assert forall|j: int| i <= j < s.drop_last().len() implies is_whitespace_byte(
            s.drop_last()[j],
        ) by {
            assert(s.drop_last()[j] == s[j]);
        }
        if i > 0 {
            assert(s.drop_last()[i - 1] == s[i - 1]);
        }
        lemma_trimmed_back_at(s.drop_last(), i);
        assert(s.drop_last().take(i) =~= s.take(i));
    }
}

/// Splitting always yields at least one field.
pub proof fn lemma_split_on_len(s: Seq<u8>, delimiter: u8)
    ensures
        split_on(s, delimiter).len() >= 1,
    decreases s.len(),
{
    let i = find_byte(s, delimiter);
    if 0 <= i < s.len() && s[i] == delimiter {
        lemma_split_on_len(s.skip(i + 1), delimiter);
    }
}

/// A line always parses to at least one field.
pub proof fn lemma_parsed_fields_len(line: Seq<u8>, delimiter: u8, trim: bool)
    ensures
        parsed_fields(line, delimiter, trim).len() >= 1,
{
    let base = if trim {
        trimmed(line)
    } else {
        line
    };
    lemma_split_on_len(base, delimiter);
}

/// `find_byte` is determined by a scan: an index with no match before it and
/// a match at it (or the end) is the one `find_byte` returns.
pub proof fn lemma_find_byte_at(s: Seq<u8>, b: u8, i: int)
    requires
        0 <= i <= s.len(),
        forall|j: int| 0 <= j < i ==> s[j] != b,
        i < s.len() ==> s[i] == b,
    ensures
        find_byte(s, b) == i,
    decreases s.len(),
{
    if s.len() > 0 {
        if i == 0 {
            if s[0] != b {
                lemma_find_byte(s, b);
            }
        } else {
            assert(s[0] != b);
            assert forall|j: int| 0 <= j < i - 1 implies s.drop_first()[j] != b by {
                assert(s.drop_first()[j] == s[j + 1]);
            }
            if i - 1 < s.drop_first().len() {
                assert(s.drop_first()[i - 1] == s[i]);
            }
            lemma_find_byte_at(s.drop_first(), b, i - 1);
        }
    }
}

} // verus!
