//! Reading a text line by line.

use vstd::prelude::*;
use vstd::utf8::{decode_utf8, valid_utf8};

verus! {

/// The byte that ends a line.
pub const NEWLINE: u8 = 0x0a;

/// The byte that may stand before the one that ends a line.
pub const CARRIAGE_RETURN: u8 = 0x0d;

/// How many bytes there are before the first newline.
pub open spec fn line_len(bytes: Seq<u8>) -> nat
    decreases bytes.len(),
{
    if bytes.len() == 0 || bytes[0] == NEWLINE {
        0
    } else {
        1 + line_len(bytes.skip(1))
    }
}

/// The first line, without its end: a newline, or a carriage return and a newline.
pub open spec fn first_line(bytes: Seq<u8>) -> Seq<u8> {
    let n = line_len(bytes) as int;
    if n < bytes.len() && n > 0 && bytes[n - 1] == CARRIAGE_RETURN {
        bytes.take(n - 1)
    } else {
        bytes.take(n)
    }
}

/// What stands behind the first line.
pub open spec fn behind_first_line(bytes: Seq<u8>) -> Seq<u8> {
    let n = line_len(bytes) as int;
    if n < bytes.len() {
        bytes.skip(n + 1)
    } else {
        Seq::empty()
    }
}

/// The lines of a text. The last one may lack a newline; behind the last newline there is no line
/// unless there are bytes.
pub open spec fn lines(bytes: Seq<u8>) -> Seq<Seq<u8>>
    decreases bytes.len(),
{
    if bytes.len() == 0 {
        Seq::empty()
    } else {
        proof {
            lemma_line_len(bytes);
        }
        seq![first_line(bytes)] + lines(behind_first_line(bytes))
    }
}

/// What stands behind the first `n` lines.
pub open spec fn behind_lines(bytes: Seq<u8>, n: nat) -> Seq<u8>
    decreases n,
{
    if n == 0 {
        bytes
    } else {
        behind_first_line(behind_lines(bytes, (n - 1) as nat))
    }
}

/// A line ends at the first newline, or with the text.
pub proof fn lemma_line_len(bytes: Seq<u8>)
    ensures
        line_len(bytes) <= bytes.len(),
        line_len(bytes) < bytes.len() ==> bytes[line_len(bytes) as int] == NEWLINE,
        forall|i: int| 0 <= i < line_len(bytes) ==> bytes[i] != NEWLINE,
    decreases bytes.len(),
{
    if bytes.len() > 0 && bytes[0] != NEWLINE {
        let rest = bytes.skip(1);
        lemma_line_len(rest);
        assert forall|i: int| 0 <= i < line_len(bytes) implies bytes[i] != NEWLINE by {
            if i > 0 {
                assert(rest[i - 1] == bytes[i]);
            }
        }
    }
}

/// The first newline fixes the length of the line.
proof fn lemma_line_len_is(bytes: Seq<u8>, n: nat)
    requires
        n <= bytes.len(),
        n < bytes.len() ==> bytes[n as int] == NEWLINE,
        forall|i: int| 0 <= i < n ==> bytes[i] != NEWLINE,
    ensures
        line_len(bytes) == n,
{
    lemma_line_len(bytes);
    if line_len(bytes) < n {
        assert(bytes[line_len(bytes) as int] != NEWLINE);
    }
}

/// The end of a line in a text that has been written with or without carriage returns.
pub open spec fn line_end(carriage_returns: bool) -> Seq<u8> {
    if carriage_returns {
        seq![CARRIAGE_RETURN, NEWLINE]
    } else {
        seq![NEWLINE]
    }
}

/// `rows` as a text, each with its end.
pub open spec fn as_text(rows: Seq<Seq<u8>>, carriage_returns: bool) -> Seq<u8>
    decreases rows.len(),
{
    if rows.len() == 0 {
        Seq::empty()
    } else {
        rows[0] + line_end(carriage_returns) + as_text(rows.skip(1), carriage_returns)
    }
}

/// A row of bytes that can stand as a line: it has no newline, nor a carriage return at its end.
pub open spec fn is_row(row: Seq<u8>) -> bool {
    &&& forall|i: int| 0 <= i < row.len() ==> row[i] != NEWLINE
    &&& row.len() > 0 ==> row.last() != CARRIAGE_RETURN
}

/// Reading a text gives back the rows it was written from, whichever way the lines were ended.
pub proof fn law_lines_of_text(rows: Seq<Seq<u8>>, carriage_returns: bool)
    requires
        forall|i: int| 0 <= i < rows.len() ==> is_row(#[trigger] rows[i]),
    ensures
        lines(as_text(rows, carriage_returns)) == rows,
    decreases rows.len(),
{
    let text = as_text(rows, carriage_returns);
    if rows.len() > 0 {
        let end = line_end(carriage_returns);
        let behind = as_text(rows.skip(1), carriage_returns);
        let n = rows[0].len() + end.len() - 1;
        assert(is_row(rows[0]));
        assert(text[n] == NEWLINE);
        assert forall|i: int| 0 <= i < n implies text[i] != NEWLINE by {
            if i < rows[0].len() {
                assert(text[i] == rows[0][i]);
            }
        }
        lemma_line_len_is(text, n as nat);
        assert(first_line(text) =~= rows[0]);
        assert(behind_first_line(text) =~= behind);
        assert forall|i: int| 0 <= i < rows.skip(1).len() implies is_row(
            #[trigger] rows.skip(1)[i],
        ) by {
            assert(is_row(rows[i + 1]));
        }
        law_lines_of_text(rows.skip(1), carriage_returns);
        assert(seq![rows[0]] + rows.skip(1) =~= rows);
    } else {
        assert(lines(text) =~= rows);
    }
}

/// `String::from_utf8`: the text that the bytes encode, if they are valid UTF-8, and nothing if
/// they are not.
#[verifier::external_body]
fn string_from_utf8(bytes: Vec<u8>) -> (res: Option<String>)
    ensures
        match res {
            Some(s) => valid_utf8(bytes@) && s@ == decode_utf8(bytes@),
            None => !valid_utf8(bytes@),
        },
{
    String::from_utf8(bytes).ok()
}

/// What a reader finds in place of the next line.
pub enum Line {
    /// There are no more lines.
    End,
    /// A line, without its end.
    Text(String),
    /// A line that is not valid UTF-8.
    Invalid,
}

/// A text on its way to be read, line by line.
pub struct LineReader<'a> {
    bytes: &'a [u8],
    pos: usize,
}

impl<'a> View for LineReader<'a> {
    type V = Seq<Seq<u8>>;

    /// The lines that have not been read.
    open spec fn view(&self) -> Seq<Seq<u8>> {
        lines(self.rest())
    }
}

impl<'a> LineReader<'a> {
    /// The bytes that have not been read.
    pub closed spec fn rest(&self) -> Seq<u8> {
        self.bytes@.skip(self.pos as int)
    }

    /// The reader stands within the text.
    pub closed spec fn wf(&self) -> bool {
        self.pos <= self.bytes@.len()
    }

    /// A reader at the beginning of a text.
    pub fn new(bytes: &'a [u8]) -> (res: Self)
        ensures
            res.wf(),
            res.rest() == bytes@,
            res@ == lines(bytes@),
    {
        assert(bytes@.skip(0) =~= bytes@);
        LineReader { bytes, pos: 0 }
    }

    /// Reads the next line.
    pub fn next_line(&mut self) -> (res: Line)
        requires
            old(self).wf(),
        ensures
            final(self).wf(),
            final(self).rest() == if old(self)@.len() == 0 {
                old(self).rest()
            } else {
                behind_first_line(old(self).rest())
            },
            match res {
                Line::End => old(self)@.len() == 0 && final(self)@ == old(self)@,
                Line::Text(s) => {
                    &&& old(self)@.len() > 0
                    &&& valid_utf8(old(self)@[0])
                    &&& s@ == decode_utf8(old(self)@[0])
                    &&& final(self)@ == old(self)@.skip(1)
                },
                Line::Invalid => {
                    &&& old(self)@.len() > 0
                    &&& !valid_utf8(old(self)@[0])
                    &&& final(self)@ == old(self)@.skip(1)
                },
            },
    {
        let ghost rest = self.bytes@.skip(self.pos as int);
        if self.pos == self.bytes.len() {
            return Line::End;
        }
        let begin: usize = self.pos;
        let mut end: usize = begin;
        while end < self.bytes.len() && self.bytes[end] != NEWLINE
            invariant
                begin == self.pos,
                begin <= end <= self.bytes@.len(),
                rest == self.bytes@.skip(begin as int),
                forall|i: int| 0 <= i < end - begin ==> rest[i] != NEWLINE,
            decreases self.bytes@.len() - end,
        {
            assert(rest[end - begin] == self.bytes@[end as int]);
            end += 1;
        }
        proof {
            if end < self.bytes@.len() {
                assert(rest[end - begin] == self.bytes@[end as int]);
            }
            lemma_line_len_is(rest, (end - begin) as nat);
        }
        let mut to: usize = end;
        if end < self.bytes.len() && end > begin && self.bytes[end - 1] == CARRIAGE_RETURN {
            to = end - 1;
        }
        let line = vstd::slice::slice_to_vec(vstd::slice::slice_subrange(self.bytes, begin, to));
        assert(line@ =~= first_line(rest));
        if end < self.bytes.len() {
            self.pos = end + 1;
        } else {
            self.pos = end;
        }
        proof {
            let behind = behind_first_line(rest);
            assert(self.bytes@.skip(self.pos as int) =~= behind);
            assert((seq![first_line(rest)] + lines(behind)).skip(1) =~= lines(behind));
        }
        match string_from_utf8(line) {
            Some(s) => Line::Text(s),
            None => Line::Invalid,
        }
    }
}

/// A row without a newline, ended by one, is the first line of a text, without a carriage return at
/// its end, if it has one; the lines of the rest follow. A row that nothing ends is a line as it
/// stands, unless it is empty.
pub proof fn law_lines_one_by_one(row: Seq<u8>, rest: Seq<u8>)
    requires
        !row.contains(0x0a),
    ensures
        lines(row + seq![0x0a] + rest) == seq![
            if row.len() > 0 && row.last() == 0x0d {
                row.drop_last()
            } else {
                row
            },
        ] + lines(rest),
        lines(row) == if row.len() > 0 {
            seq![row]
        } else {
            Seq::empty()
        },
{
    let text = row + seq![0x0au8] + rest;
    let n = row.len() as int;
    assert forall|i: int| 0 <= i < n implies text[i] != NEWLINE && row[i] != NEWLINE by {
        assert(row.contains(row[i]));
    }
    lemma_line_len_is(text, n as nat);
    if n > 0 {
        assert(text[n - 1] == row.last());
        assert(text.take(n - 1) =~= row.drop_last());
    }
    assert(text.take(n) =~= row);
    assert(behind_first_line(text) =~= rest);
    lemma_line_len_is(row, n as nat);
    assert(row.take(n) =~= row);
    assert(behind_first_line(row) =~= Seq::empty());
    assert(lines(Seq::<u8>::empty()) == Seq::<Seq<u8>>::empty());
    if n > 0 {
        assert(lines(row) =~= seq![row] + lines(Seq::<u8>::empty()));
    }
}

/// Taking a line off a text leaves what stands behind its newline, and nothing behind the last line
/// that none ends.
pub proof fn law_rest_behind_a_line(row: Seq<u8>, rest: Seq<u8>, n: nat)
    requires
        !row.contains(0x0a),
    ensures
        behind_lines(row + seq![0x0a] + rest, n + 1) == behind_lines(rest, n),
        behind_lines(row, 1) == Seq::<u8>::empty(),
        behind_lines(rest, 0) == rest,
    decreases n,
{
    let text = row + seq![0x0au8] + rest;
    let k = row.len();
    assert forall|i: int| 0 <= i < k implies text[i] != NEWLINE && row[i] != NEWLINE by {
        assert(row.contains(row[i]));
    }
    reveal_with_fuel(behind_lines, 2);
    lemma_line_len_is(text, k);
    lemma_line_len_is(row, k);
    assert(behind_first_line(text) =~= rest);
    if n > 0 {
        law_rest_behind_a_line(row, rest, (n - 1) as nat);
    }
}

} // verus!
