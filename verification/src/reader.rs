//! The decoder: pulls rows of fields out of a byte buffer.
//!
//! The buffer is split into lines, each line into fields on the configured
//! delimiter; whole line and fields are trimmed when trimming is on.  The
//! first line parsed is captured as the header, exactly once; when headers
//! are skipped it is never handed back as a data row.

use vstd::prelude::*;

use crate::format::CARRIAGE_RETURN;
use crate::format::DEFAULT_DELIMITER;
use crate::format::NEWLINE;
use crate::format::is_whitespace_byte;
use crate::format::lemma_find_byte_at;
use crate::format::lemma_trimmed_back_at;
use crate::format::lemma_trimmed_front_at;
use crate::format::lines_of;
use crate::format::parsed_fields;
use crate::format::split_on;
use crate::format::strip_trailing_cr;
use crate::format::trimmed;

verus! {

/// How a reader is configured: the delimiter between fields, whether the
/// first row is withheld as a header, and whether whitespace is trimmed.
pub ghost struct ReaderConfig {
    pub delimiter: u8,
    pub skip_headers: bool,
    pub trim: bool,
}

/// What a `Reader` holds: the lines it has not consumed yet, the header it
/// has captured, and its configuration.
pub ghost struct ReaderView {
    pub lines: Seq<Seq<u8>>,
    pub headers: Option<Seq<Seq<u8>>>,
    pub config: ReaderConfig,
}

impl ReaderView {
    /// The lines that will still come back as data rows: everything left,
    /// minus the first line when it is about to be withheld as the header.
    pub open spec fn data_lines(self) -> Seq<Seq<u8>> {
        if self.headers is None && self.config.skip_headers && self.lines.len() > 0 {
            self.lines.drop_first()
        } else {
            self.lines
        }
    }

    /// The rows that will still come back as data.
    pub open spec fn pending_rows(self) -> Seq<Seq<Seq<u8>>> {
        self.data_lines().map(
            |i: int, l: Seq<u8>| parsed_fields(l, self.config.delimiter, self.config.trim),
        )
    }

    /// The header once every line has been consumed: the one already
    /// captured, else the parse of the first remaining line, if any.
    pub open spec fn headers_at_end(self) -> Option<Seq<Seq<u8>>> {
        if self.headers is Some || self.lines.len() == 0 {
            self.headers
        } else {
            Some(parsed_fields(self.lines[0], self.config.delimiter, self.config.trim))
        }
    }
}

struct ReaderOptions {
    delimiter: u8,
    skip_headers: bool,
    trim: bool,
}

/// Builds a `Reader` with a chosen configuration.  Defaults: delimiter `,`,
/// headers skipped, whitespace trimmed.
pub struct ReaderBuilder {
    delimiter: u8,
    skip_headers: bool,
    trim: bool,
}

impl View for ReaderBuilder {
    type V = ReaderConfig;

    closed spec fn view(&self) -> ReaderConfig {
        ReaderConfig {
            delimiter: self.delimiter,
            skip_headers: self.skip_headers,
            trim: self.trim,
        }
    }
}

impl ReaderBuilder {
    /// The default configuration: delimiter `,`, headers skipped, whitespace
    /// trimmed.
    pub fn new() -> (b: ReaderBuilder)
        ensures
            b@.delimiter == DEFAULT_DELIMITER,
            b@.skip_headers,
            b@.trim,
    {
        ReaderBuilder { delimiter: DEFAULT_DELIMITER, skip_headers: true, trim: true }
    }

    /// Chooses the byte that separates fields.
    pub fn delimiter(self, delimiter: u8) -> (b: ReaderBuilder)
        ensures
            b@.delimiter == delimiter,
            b@.skip_headers == self@.skip_headers,
            b@.trim == self@.trim,
    {
        ReaderBuilder { delimiter, ..self }
    }

    /// Chooses whether the first row is withheld as a header.
    pub fn skip_headers(self, skip_headers: bool) -> (b: ReaderBuilder)
        ensures
            b@.delimiter == self@.delimiter,
            b@.skip_headers == skip_headers,
            b@.trim == self@.trim,
    {
        ReaderBuilder { skip_headers, ..self }
    }

    /// Chooses whether lines and fields are trimmed of whitespace.
    pub fn trim_whitespace(self, trim: bool) -> (b: ReaderBuilder)
        ensures
            b@.delimiter == self@.delimiter,
            b@.skip_headers == self@.skip_headers,
            b@.trim == trim,
    {
        ReaderBuilder { trim, ..self }
    }

    /// A reader over `input` with this builder's configuration.
    pub fn from(&self, input: Vec<u8>) -> (r: Reader)
        ensures
            r.wf(),
            r@.lines == lines_of(input@),
            r@.headers is None,
            r@.config == self@,
    {
        Reader::make(
            input,
            ReaderOptions {
                delimiter: self.delimiter,
                skip_headers: self.skip_headers,
                trim: self.trim,
            },
        )
    }
}

/// The mutable part of a reader: the header captured from the first row,
/// absent until that row has been parsed and never changed afterwards.
pub struct ReaderState {
    pub headers: Option<Vec<Vec<u8>>>,
}

/// The decoder.  Rows are pulled one at a time with `read_row`, or all at
/// once with `iter`.
pub struct Reader {
    input: Vec<u8>,
    pos: usize,
    options: ReaderOptions,
    pub state: ReaderState,
}

impl View for Reader {
    type V = ReaderView;

    closed spec fn view(&self) -> ReaderView {
        ReaderView {
            lines: lines_of(self.input@.skip(self.pos as int)),
            headers: self.state.headers.deep_view(),
            config: ReaderConfig {
                delimiter: self.options.delimiter,
                skip_headers: self.options.skip_headers,
                trim: self.options.trim,
            },
        }
    }
}

impl Reader {
    /// The reader's cursor sits inside its buffer.
    pub closed spec fn wf(self) -> bool {
        self.pos <= self.input.len()
    }

    /// A reader over `input` with the default configuration.
    pub fn from(input: Vec<u8>) -> (r: Reader)
        ensures
            r.wf(),
            r@.lines == lines_of(input@),
            r@.headers is None,
            r@.config.delimiter == DEFAULT_DELIMITER,
            r@.config.skip_headers,
            r@.config.trim,
    {
        Reader::make(
            input,
            ReaderOptions { delimiter: DEFAULT_DELIMITER, skip_headers: true, trim: true },
        )
    }

    fn make(input: Vec<u8>, options: ReaderOptions) -> (r: Reader)
        ensures
            r.wf(),
            r@.lines == lines_of(input@),
            r@.headers is None,
            r@.config.delimiter == options.delimiter,
            r@.config.skip_headers == options.skip_headers,
            r@.config.trim == options.trim,
    {
        let r = Reader { input, pos: 0, options, state: ReaderState { headers: None } };
        proof {
            assert(r.input@.skip(0) =~= r.input@);
        }
        r
    }

    /// Takes the next line off the buffer: the bytes up to the next line
    /// feed, without the line feed and without a trailing carriage return.
    fn read_line(&mut self) -> (r: Option<Vec<u8>>)
        requires
            old(self).wf(),
        ensures
            final(self).wf(),
            final(self)@.headers == old(self)@.headers,
            final(self)@.config == old(self)@.config,
            old(self)@.lines.len() == 0 ==> r is None && final(self)@.lines == old(self)@.lines,
            old(self)@.lines.len() > 0 ==> (r matches Some(l) && l@ == old(self)@.lines[0]
                && final(self)@.lines == old(self)@.lines.drop_first()),
    {
        if self.pos >= self.input.len() {
            proof {
                assert(self.input@.skip(self.pos as int) =~= Seq::<u8>::empty());
            }
            return None;
        }
        let ghost t = self.input@.skip(self.pos as int);
        let start = self.pos;
        let mut k: usize = start;
        while k < self.input.len() && self.input[k] != NEWLINE
            invariant
                start <= k <= self.input.len(),
                forall|j: int| start <= j < k ==> self.input@[j] != NEWLINE,
            decreases self.input.len() - k,
        {
            k += 1;
        }
        let ghost i = k - start as int;
        proof {
            assert forall|j: int| 0 <= j < i implies t[j] != NEWLINE by {
                assert(t[j] == self.input@[start + j]);
            }
            if i < t.len() {
                assert(t[i] == self.input@[k as int]);
            }
            lemma_find_byte_at(t, NEWLINE, i);
        }
        let end: usize = if k > start && self.input[k - 1] == CARRIAGE_RETURN {
            k - 1
        } else {
            k
        };
        let line = copy_range(&self.input, start, end);
        let newpos: usize = if k < self.input.len() {
            k + 1
        } else {
            k
        };
        self.pos = newpos;
        proof {
            let rest = self.input@.skip(newpos as int);
            if k < self.input.len() {
                assert(t[i] == self.input@[k as int]);
                assert(t.take(i) =~= self.input@.subrange(start as int, k as int));
                assert(t.skip(i + 1) =~= rest);
                if end < k {
                    assert(t.take(i).last() == self.input@[k - 1]);
                    assert(strip_trailing_cr(t.take(i)) =~= line@);
                } else {
                    if t.take(i).len() > 0 {
                        assert(t.take(i).last() == self.input@[k - 1]);
                    }
                    assert(strip_trailing_cr(t.take(i)) =~= line@);
                }
                assert(lines_of(t) == seq![strip_trailing_cr(t.take(i))] + lines_of(rest));
                assert(lines_of(t)[0] == line@);
                assert(lines_of(t).drop_first() =~= lines_of(rest));
            } else {
                assert(i == t.len());
                assert(lines_of(t) == seq![strip_trailing_cr(t)]);
                assert(t =~= self.input@.subrange(start as int, k as int));
                if end < k {
                    assert(t.last() == self.input@[k - 1]);
                    assert(strip_trailing_cr(t) =~= line@);
                } else {
                    if t.len() > 0 {
                        assert(t.last() == self.input@[k - 1]);
                    }
                    assert(strip_trailing_cr(t) =~= line@);
                }
                assert(rest =~= Seq::<u8>::empty());
                assert(lines_of(t).drop_first() =~= lines_of(rest));
            }
        }
        Some(line)
    }

    /// The next data row, or `None` when the buffer is exhausted.  The first
    /// line parsed is captured as the header; when headers are skipped, that
    /// line is consumed silently and the row after it comes back instead.  A
    /// header once captured never changes.
    pub fn read_row(&mut self) -> (r: Option<Vec<Vec<u8>>>)
        requires
            old(self).wf(),
        ensures
            final(self).wf(),
            final(self)@.config == old(self)@.config,
            old(self)@.headers is Some ==> final(self)@.headers == old(self)@.headers,
            old(self)@.lines.len() == 0 ==> (r is None && final(self)@.lines == old(self)@.lines
                && final(self)@.headers == old(self)@.headers),
            (old(self)@.lines.len() > 0 && !(old(self)@.headers is None
                && old(self)@.config.skip_headers)) ==> (r matches Some(row)
                && row.deep_view() == parsed_fields(
                old(self)@.lines[0],
                old(self)@.config.delimiter,
                old(self)@.config.trim,
            ) && final(self)@.lines == old(self)@.lines.drop_first() && final(self)@.headers == (
            if old(self)@.headers is None {
                Some(
                    parsed_fields(
                        old(self)@.lines[0],
                        old(self)@.config.delimiter,
                        old(self)@.config.trim,
                    ),
                )
            } else {
                old(self)@.headers
            })),
            (old(self)@.lines.len() > 0 && old(self)@.headers is None
                && old(self)@.config.skip_headers) ==> (final(self)@.headers == Some(
                parsed_fields(
                    old(self)@.lines[0],
                    old(self)@.config.delimiter,
                    old(self)@.config.trim,
                ),
            ) && (old(self)@.lines.len() == 1 ==> r is None && final(self)@.lines.len() == 0) && (
            old(self)@.lines.len() >= 2 ==> (r matches Some(row) && row.deep_view()
                == parsed_fields(
                old(self)@.lines[1],
                old(self)@.config.delimiter,
                old(self)@.config.trim,
            ) && final(self)@.lines == old(self)@.lines.skip(2)))),
    {
        let line = match self.read_line() {
            None => {
                return None;
            },
            Some(l) => l,
        };
        let fields = parse_fields(&line, self.options.delimiter, self.options.trim);
        if self.state.headers.is_none() {
            let hdr = clone_row(&fields);
            self.state.headers = Some(hdr);
            if self.options.skip_headers {
                let line2 = match self.read_line() {
                    None => {
                        return None;
                    },
                    Some(l) => l,
                };
                let fields2 = parse_fields(&line2, self.options.delimiter, self.options.trim);
                proof {
                    assert(old(self)@.lines.drop_first().drop_first() =~= old(self)@.lines.skip(
                        2,
                    ));
                }
                return Some(fields2);
            }
        }
        Some(fields)
    }

    /// Every remaining data row at once, in order.  Afterwards the buffer is
    /// exhausted and the header holds what the first line parsed to, if any
    /// line was ever seen.
    pub fn iter(&mut self) -> (rows: Vec<Vec<Vec<u8>>>)
        requires
            old(self).wf(),
        ensures
            final(self).wf(),
            final(self)@.config == old(self)@.config,
            final(self)@.lines.len() == 0,
            rows.deep_view() == old(self)@.pending_rows(),
            final(self)@.headers == old(self)@.headers_at_end(),
    {
        let mut rows: Vec<Vec<Vec<u8>>> = Vec::new();
        proof {
            assert(rows.deep_view() =~= Seq::<Seq<Seq<u8>>>::empty());
            assert(old(self)@.pending_rows() =~= rows.deep_view() + self@.pending_rows());
        }
        loop
            invariant_except_break
                self.wf(),
                self@.config == old(self)@.config,
                old(self)@.pending_rows() == rows.deep_view() + self@.pending_rows(),
                self@.headers_at_end() == old(self)@.headers_at_end(),
            ensures
                self.wf(),
                self@.config == old(self)@.config,
                self@.lines.len() == 0,
                rows.deep_view() == old(self)@.pending_rows(),
                self@.headers == old(self)@.headers_at_end(),
            decreases self@.lines.len(),
        {
            let ghost pre = self@;
            let ghost rows_pre = rows.deep_view();
            match self.read_row() {
                None => {
                    proof {
                        if pre.lines.len() > 0 {
                            assert(pre.headers is None && pre.config.skip_headers);
                            assert(pre.lines.len() == 1);
                        }
                        assert(self@.lines.len() == 0);
                        assert(self@.pending_rows() =~= Seq::<Seq<Seq<u8>>>::empty());
                        assert(rows.deep_view() + self@.pending_rows() =~= rows.deep_view());
                        if pre.lines.len() > 0 {
                            assert(self@.headers == pre.headers_at_end());
                        }
                    }
                    break;
                },
                Some(row) => {
                    let ghost rv = row.deep_view();
                    push_parsed_row(&mut rows, row);
                    proof {
                        let d = pre.config.delimiter;
                        let tr = pre.config.trim;
                        assert(pre.lines.len() > 0);
                        let post = self@;
                        if pre.headers is None && pre.config.skip_headers {
                            assert(pre.lines.len() >= 2);
                            assert(rv == parsed_fields(pre.lines[1], d, tr));
                            assert(pre.data_lines() =~= pre.lines.drop_first());
                            assert(post.data_lines() =~= pre.lines.skip(2));
                            assert(pre.pending_rows()[0] == rv);
                            assert forall|j: int| 0 <= j < post.pending_rows().len() implies post.pending_rows()[j]
                                == pre.pending_rows()[j + 1] by {
                                assert(post.data_lines()[j] == pre.data_lines()[j + 1]);
                            }
                            assert(pre.pending_rows() =~= seq![rv] + post.pending_rows());
                        } else {
                            assert(rv == parsed_fields(pre.lines[0], d, tr));
                            assert(pre.data_lines() =~= pre.lines);
                            assert(post.data_lines() =~= pre.lines.drop_first());
                            assert(pre.pending_rows()[0] == rv);
                            assert forall|j: int| 0 <= j < post.pending_rows().len() implies post.pending_rows()[j]
                                == pre.pending_rows()[j + 1] by {
                                assert(post.data_lines()[j] == pre.data_lines()[j + 1]);
                            }
                            assert(pre.pending_rows() =~= seq![rv] + post.pending_rows());
                        }
                        assert(rows.deep_view() =~= rows_pre.push(rv));
                        assert(rows.deep_view() + post.pending_rows() =~= rows_pre
                            + pre.pending_rows());
                        assert(post.headers_at_end() == pre.headers_at_end());
                    }
                },
            }
        }
        rows
    }
}

/// Whether `b` counts as whitespace for trimming.
fn is_whitespace(b: u8) -> (r: bool)
    ensures
        r == is_whitespace_byte(b),
{
    b == 32 || b == 9 || b == 10 || b == 12 || b == 13
}

/// `v` without leading or trailing whitespace.
fn trim_bytes(v: &Vec<u8>) -> (r: Vec<u8>)
    ensures
        r@ == trimmed(v@),
{
    let mut from: usize = 0;
    while from < v.len() && is_whitespace(v[from])
        invariant
            from <= v.len(),
            forall|j: int| 0 <= j < from ==> is_whitespace_byte(v@[j]),
        decreases v.len() - from,
    {
        from += 1;
    }
    proof {
        lemma_trimmed_front_at(v@, from as int);
    }
    let mut to: usize = v.len();
    while to > from && is_whitespace(v[to - 1])
        invariant
            from <= to <= v.len(),
            forall|j: int| to <= j < v.len() ==> is_whitespace_byte(v@[j]),
        decreases to,
    {
        to -= 1;
    }
    proof {
        let front = v@.skip(from as int);
        assert forall|j: int| to - from <= j < front.len() implies is_whitespace_byte(
            front[j],
        ) by {
            assert(front[j] == v@[from + j]);
        }
        if to > from {
            assert(front[to - from - 1] == v@[to - 1]);
        }
        lemma_trimmed_back_at(front, to - from as int);
        assert(front.take(to - from as int) =~= v@.subrange(from as int, to as int));
    }
    copy_range(v, from, to)
}

/// Pushing a field onto a row pushes its bytes onto the row's deep view.
proof fn lemma_deep_view_push(pre: Vec<Vec<u8>>, post: Vec<Vec<u8>>, x: Vec<u8>)
    requires
        post@ == pre@.push(x),
    ensures
        post.deep_view() == pre.deep_view().push(x@),
{
    assert forall|i: int| 0 <= i < post@.len() implies post.deep_view()[i] == pre.deep_view().push(
        x@,
    )[i] by {
        if i < pre@.len() {
            assert(post@[i] == pre@[i]);
        } else {
            assert(post@[i] == x);
            assert(x.deep_view() =~= x@);
        }
    }
    assert(post.deep_view() =~= pre.deep_view().push(x@));
}

/// Appends one field to a row.
fn push_field(out: &mut Vec<Vec<u8>>, x: Vec<u8>)
    ensures
        final(out).deep_view() == old(out).deep_view().push(x@),
{
    let ghost pre = *out;
    let ghost gx = x;
    out.push(x);
    proof {
        lemma_deep_view_push(pre, *out, gx);
    }
}

/// `v` split into the pieces between occurrences of the delimiter.
fn split_bytes(v: &Vec<u8>, delimiter: u8) -> (r: Vec<Vec<u8>>)
    ensures
        r.deep_view() == split_on(v@, delimiter),
{
    let mut out: Vec<Vec<u8>> = Vec::new();
    let mut pos: usize = 0;
    proof {
        assert(out.deep_view() =~= Seq::<Seq<u8>>::empty());
        assert(v@.skip(0) =~= v@);
    }
    loop
        invariant_except_break
            pos <= v.len(),
            split_on(v@, delimiter) == out.deep_view() + split_on(
                v@.skip(pos as int),
                delimiter,
            ),
        ensures
            out.deep_view() == split_on(v@, delimiter),
        decreases v.len() - pos,
    {
        let ghost t = v@.skip(pos as int);
        let start = pos;
        let mut k: usize = start;
        while k < v.len() && v[k] != delimiter
            invariant
                start <= k <= v.len(),
                forall|j: int| start <= j < k ==> v@[j] != delimiter,
            decreases v.len() - k,
        {
            k += 1;
        }
        let ghost i = k - start as int;
        proof {
            assert forall|j: int| 0 <= j < i implies t[j] != delimiter by {
                assert(t[j] == v@[start + j]);
            }
            if i < t.len() {
                assert(t[i] == v@[k as int]);
            }
            lemma_find_byte_at(t, delimiter, i);
        }
        let field = copy_range(v, start, k);
        let ghost fview = field@;
        let ghost before = out.deep_view();
        push_field(&mut out, field);
        if k == v.len() {
            proof {
                assert(t =~= v@.subrange(start as int, k as int));
                assert(t =~= fview);
                assert(split_on(t, delimiter) == seq![t]);
                assert(out.deep_view() =~= before + split_on(t, delimiter));
            }
            break;
        }
        pos = k + 1;
        proof {
            assert(t[i] == v@[k as int]);
            assert(t.take(i) =~= fview);
            assert(t.skip(i + 1) =~= v@.skip(pos as int));
            assert(split_on(t, delimiter) == seq![t.take(i)] + split_on(
                v@.skip(pos as int),
                delimiter,
            ));
            assert(out.deep_view() + split_on(v@.skip(pos as int), delimiter) =~= before
                + split_on(t, delimiter));
        }
    }
    out
}

/// One line turned into its fields: the line (trimmed whole when trimming is
/// on) split on the delimiter, each field then trimmed when trimming is on.
fn parse_fields(line: &Vec<u8>, delimiter: u8, trim: bool) -> (r: Vec<Vec<u8>>)
    ensures
        r.deep_view() == parsed_fields(line@, delimiter, trim),
{
    if trim {
        let base = trim_bytes(line);
        let parts = split_bytes(&base, delimiter);
        let ghost fields = split_on(trimmed(line@), delimiter);
        let mut out: Vec<Vec<u8>> = Vec::new();
        let mut i: usize = 0;
        proof {
            assert(out.deep_view() =~= Seq::<Seq<u8>>::empty());
        }
        while i < parts.len()
            invariant
                i <= parts.len(),
                parts@.len() == fields.len(),
                parts.deep_view() == fields,
                out.deep_view().len() == i,
                forall|j: int| 0 <= j < i ==> out.deep_view()[j] == trimmed(fields[j]),
            decreases parts.len() - i,
        {
            proof {
                assert(parts@[i as int].deep_view() =~= parts@[i as int]@);
                assert(parts.deep_view()[i as int] == parts@[i as int]@);
            }
            let f = trim_bytes(&parts[i]);
            push_field(&mut out, f);
            i += 1;
        }
        proof {
            assert forall|j: int| 0 <= j < out.deep_view().len() implies out.deep_view()[j]
                == parsed_fields(line@, delimiter, true)[j] by {
                assert(out.deep_view()[j] == trimmed(fields[j]));
            }
            assert(out.deep_view() =~= parsed_fields(line@, delimiter, true));
        }
        out
    } else {
        split_bytes(line, delimiter)
    }
}

/// A fresh copy of a field's bytes.
fn clone_bytes(v: &Vec<u8>) -> (r: Vec<u8>)
    ensures
        r@ == v@,
{
    let r = copy_range(v, 0, v.len());
    proof {
        assert(v@.subrange(0, v@.len() as int) =~= v@);
    }
    r
}

/// A fresh copy of a row's fields.
fn clone_row(row: &Vec<Vec<u8>>) -> (r: Vec<Vec<u8>>)
    ensures
        r.deep_view() == row.deep_view(),
{
    let mut out: Vec<Vec<u8>> = Vec::new();
    let mut i: usize = 0;
    proof {
        assert(out.deep_view() =~= Seq::<Seq<u8>>::empty());
    }
    while i < row.len()
        invariant
            i <= row.len(),
            out.deep_view().len() == i,
            forall|j: int| 0 <= j < i ==> out.deep_view()[j] == row.deep_view()[j],
        decreases row.len() - i,
    {
        proof {
            assert(row@[i as int].deep_view() =~= row@[i as int]@);
        }
        let f = clone_bytes(&row[i]);
        push_field(&mut out, f);
        i += 1;
    }
    proof {
        assert(out.deep_view() =~= row.deep_view());
    }
    out
}

/// Pushing a row pushes its fields onto the deep view.
proof fn lemma_rows_deep_view_push(pre: Vec<Vec<Vec<u8>>>, post: Vec<Vec<Vec<u8>>>, x: Vec<Vec<u8>>)
    requires
        post@ == pre@.push(x),
    ensures
        post.deep_view() == pre.deep_view().push(x.deep_view()),
{
    assert forall|i: int| 0 <= i < post@.len() implies post.deep_view()[i] == pre.deep_view().push(
        x.deep_view(),
    )[i] by {
        if i < pre@.len() {
            assert(post@[i] == pre@[i]);
        } else {
            assert(post@[i] == x);
        }
    }
    assert(post.deep_view() =~= pre.deep_view().push(x.deep_view()));
}

/// Appends one row to a list of rows.
fn push_parsed_row(out: &mut Vec<Vec<Vec<u8>>>, x: Vec<Vec<u8>>)
    ensures
        final(out).deep_view() == old(out).deep_view().push(x.deep_view()),
{
    let ghost pre = *out;
    let ghost gx = x;
    out.push(x);
    proof {
        lemma_rows_deep_view_push(pre, *out, gx);
    }
}

/// The bytes of `v` from `from` (inclusive) to `to` (exclusive).
fn copy_range(v: &Vec<u8>, from: usize, to: usize) -> (r: Vec<u8>)
    requires
        from <= to <= v@.len(),
    ensures
        r@ == v@.subrange(from as int, to as int),
{
    let mut r: Vec<u8> = Vec::new();
    let mut j = from;
    proof {
        assert(r@ =~= v@.subrange(from as int, from as int));
    }
    while j < to
        invariant
            from <= j <= to <= v@.len(),
            r@ == v@.subrange(from as int, j as int),
        decreases to - j,
    {
        r.push(v[j]);
        proof {
            assert(v@.subrange(from as int, j + 1) =~= v@.subrange(from as int, j as int).push(
                v@[j as int],
            ));
        }
        j += 1;
    }
    r
}

} // verus!
