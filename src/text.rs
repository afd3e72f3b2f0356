//! The document: an ordered sequence of lines, addressed by row and byte
//! column, with the edits that change it.
use vstd::prelude::*;

use crate::bytes::{
    boundary, byte_len, bytes_of, join_lines, lemma_boundary, lemma_bytes_concat,
    lemma_bytes_valid, lines_view, newline, prefix_sum, push_bytes, substring, NEWLINE,
};
use crate::bindings::{clusters_wf, grapheme_lengths, grapheme_lens};
use vstd::utf8::{is_char_boundary, length_of_first_scalar, pop_first_scalar, valid_utf8};

verus! {

/// Why a buffer edit was refused.
#[derive(Clone, Copy, Debug, PartialEq, Eq, Structural)]
pub enum TextError {
    /// A row past the last line, or a column past the line's end or inside
    /// a character.
    OutOfBounds,
}

/// The text of an open document.
pub struct Text {
    /// The lines, without their line terminators.
    pub raw: Vec<String>,
    pub file_path: String,
    pub needs_update: bool,
}

/// `lines` with row `row` replaced by its bytes before `col`, `ins`, and its
/// bytes from `col` on.
pub open spec fn insert_spec(lines: Seq<Seq<u8>>, row: int, col: int, ins: Seq<u8>) -> Seq<
    Seq<u8>,
> {
    let l = lines[row];
    lines.update(row, l.subrange(0, col) + ins + l.subrange(col, l.len() as int))
}

/// `lines` with `count` bytes taken out of row `row` from `col` on.
pub open spec fn delete_spec(lines: Seq<Seq<u8>>, row: int, col: int, count: int) -> Seq<
    Seq<u8>,
> {
    let l = lines[row];
    lines.update(row, l.subrange(0, col) + l.subrange(col + count, l.len() as int))
}

/// `lines` with row `row` cut at `col`, its tail becoming a new line below.
pub open spec fn split_spec(lines: Seq<Seq<u8>>, row: int, col: int) -> Seq<Seq<u8>> {
    let l = lines[row];
    lines.subrange(0, row).push(l.subrange(0, col)).push(l.subrange(col, l.len() as int))
        + lines.subrange(row + 1, lines.len() as int)
}

/// `lines` with row `row` appended to row `row - 1` and removed.
pub open spec fn join_spec(lines: Seq<Seq<u8>>, row: int) -> Seq<Seq<u8>> {
    lines.subrange(0, row - 1).push(lines[row - 1] + lines[row]) + lines.subrange(
        row + 1,
        lines.len() as int,
    )
}

/// `line` with `ins` put in at byte column `col`: `line[..col]`, then `ins`, then
/// `line[col..]`, as one new string.
fn spliced(line: &String, col: usize, ins: &str) -> (r: String)
    requires
        col <= bytes_of(line@).len(),
        boundary(bytes_of(line@), col as int),
    ensures
        bytes_of(r@) == bytes_of(line@).subrange(0, col as int) + bytes_of(ins@) + bytes_of(
            line@,
        ).subrange(col as int, bytes_of(line@).len() as int),
{
    let n = byte_len(line.as_str());
    let mut r = substring(line.as_str(), 0, col);
    let tail = substring(line.as_str(), col, n);
    let ghost head_view = r@;
    r.append(ins);
    let ghost mid_view = r@;
    r.append(tail.as_str());
    proof {
        lemma_bytes_concat(head_view, ins@);
        lemma_bytes_concat(mid_view, tail@);
    }
    r
}

impl Text {
    /// The buffer's lines as bytes.
    pub open spec fn lines(&self) -> Seq<Seq<u8>> {
        lines_view(self.raw@)
    }

    /// A document always has at least one line.
    pub open spec fn wf(&self) -> bool {
        self.raw@.len() >= 1
    }

    /// Byte length of row `row`.
    pub open spec fn line_len(&self, row: int) -> int {
        self.lines()[row].len() as int
    }

    /// A document holding `raw`, or one empty line when `raw` is empty.
    pub fn new(raw: Vec<String>) -> (r: Text)
        ensures
            r.wf(),
            raw@.len() > 0 ==> r.raw@ == raw@,
            raw@.len() == 0 ==> r.lines() == seq![Seq::<u8>::empty()],
            r.file_path@ == Seq::<char>::empty(),
            r.needs_update,
    {
        let mut raw = raw;
        if raw.len() == 0 {
            raw.push(String::new());
            proof {
                assert(lines_view(raw@) =~= seq![Seq::<u8>::empty()]);
            }
        }
        Text { raw, file_path: String::new(), needs_update: true }
    }

    /// Inserts `ins` into row `row` at byte column `col`.
    pub fn insert_text(&mut self, row: usize, col: usize, ins: &str) -> (r: Result<(), TextError>)
        ensures
            r.is_ok() == (row < old(self).raw@.len() && col <= old(self).line_len(row as int)
                && boundary(old(self).lines()[row as int], col as int)),
            r.is_ok() ==> final(self).lines() == insert_spec(
                old(self).lines(),
                row as int,
                col as int,
                bytes_of(ins@),
            ),
            r.is_err() ==> final(self).raw@ == old(self).raw@,
            final(self).file_path == old(self).file_path,
            final(self).needs_update == old(self).needs_update,
    {
        if row >= self.raw.len() {
            return Err(TextError::OutOfBounds);
        }
        if !self.is_boundary(row, col) {
            return Err(TextError::OutOfBounds);
        }
        let new_line = spliced(&self.raw[row], col, ins);
        self.raw.set(row, new_line);
        proof {
            assert(self.lines() =~= insert_spec(
                old(self).lines(),
                row as int,
                col as int,
                bytes_of(ins@),
            ));
        }
        Ok(())
    }

    /// Whether byte column `col` of row `row` falls between two characters.
    pub fn is_boundary(&self, row: usize, col: usize) -> (r: bool)
        requires
            row < self.raw@.len(),
        ensures
            r == (col <= self.line_len(row as int) && boundary(self.lines()[row as int], col as int)),
    {
        let b = self.raw[row].as_str().as_bytes();
        if col > b.len() {
            false
        } else if col == 0 || col == b.len() {
            true
        } else {
            !(0x80 <= b[col] && b[col] <= 0xbf)
        }
    }

    /// Removes `count` bytes of row `row` from byte column `col` on.
    pub fn delete_range(&mut self, row: usize, col: usize, count: usize) -> (r: Result<
        (),
        TextError,
    >)
        ensures
            r.is_ok() == (row < old(self).raw@.len() && col + count <= old(self).line_len(
                row as int,
            ) && boundary(old(self).lines()[row as int], col as int) && boundary(
                old(self).lines()[row as int],
                col + count,
            )),
            r.is_ok() ==> final(self).lines() == delete_spec(
                old(self).lines(),
                row as int,
                col as int,
                count as int,
            ),
            r.is_err() ==> final(self).raw@ == old(self).raw@,
            final(self).file_path == old(self).file_path,
            final(self).needs_update == old(self).needs_update,
    {
        if row >= self.raw.len() {
            return Err(TextError::OutOfBounds);
        }
        let n = byte_len(self.raw[row].as_str());
        if col > n || count > n - col {
            return Err(TextError::OutOfBounds);
        }
        if !self.is_boundary(row, col) || !self.is_boundary(row, col + count) {
            return Err(TextError::OutOfBounds);
        }
        let line = &self.raw[row];
        let mut new_line = substring(line.as_str(), 0, col);
        let tail = substring(line.as_str(), col + count, n);
        let ghost head_view = new_line@;
        new_line.append(tail.as_str());
        proof {
            lemma_bytes_concat(head_view, tail@);
        }
        self.raw.set(row, new_line);
        proof {
            assert(self.lines() =~= delete_spec(
                old(self).lines(),
                row as int,
                col as int,
                count as int,
            ));
        }
        Ok(())
    }

    /// Cuts row `row` at byte column `col`; the tail becomes a new line
    /// below it.
    pub fn split_line(&mut self, row: usize, col: usize) -> (r: Result<(), TextError>)
        ensures
            r.is_ok() == (row < old(self).raw@.len() && col <= old(self).line_len(row as int)
                && boundary(old(self).lines()[row as int], col as int)),
            r.is_ok() ==> final(self).lines() == split_spec(
                old(self).lines(),
                row as int,
                col as int,
            ),
            r.is_err() ==> final(self).raw@ == old(self).raw@,
            final(self).file_path == old(self).file_path,
            final(self).needs_update == old(self).needs_update,
    {
        if row >= self.raw.len() {
            return Err(TextError::OutOfBounds);
        }
        if !self.is_boundary(row, col) {
            return Err(TextError::OutOfBounds);
        }
        let n = byte_len(self.raw[row].as_str());
        let head = substring(self.raw[row].as_str(), 0, col);
        let tail = substring(self.raw[row].as_str(), col, n);
        self.raw.set(row, head);
        self.raw.insert(row + 1, tail);
        proof {
            assert(self.lines() =~= split_spec(old(self).lines(), row as int, col as int));
        }
        Ok(())
    }

    /// Appends row `row` to the row above it and removes it.
    pub fn join_with_previous(&mut self, row: usize) -> (r: Result<(), TextError>)
        ensures
            r.is_ok() == (0 < row < old(self).raw@.len()),
            r.is_ok() ==> final(self).lines() == join_spec(old(self).lines(), row as int),
            r.is_err() ==> final(self).raw@ == old(self).raw@,
            final(self).file_path == old(self).file_path,
            final(self).needs_update == old(self).needs_update,
    {
        if row == 0 || row >= self.raw.len() {
            return Err(TextError::OutOfBounds);
        }
        let lower = self.raw.remove(row);
        let mut upper = self.raw[row - 1].clone();
        let ghost upper_view = upper@;
        upper.append(lower.as_str());
        proof {
            lemma_bytes_concat(upper_view, lower@);
        }
        self.raw.set(row - 1, upper);
        proof {
            assert(self.lines() =~= join_spec(old(self).lines(), row as int));
        }
        Ok(())
    }
}

/// Joining a row to the one above it and then splitting the result where
/// the upper row used to end gives back the original lines.
pub proof fn lemma_join_then_split(lines: Seq<Seq<u8>>, row: int)
    requires
        0 < row < lines.len(),
        forall|i: int| #![trigger lines[i]] 0 <= i < lines.len() ==> valid_line(lines[i]),
    ensures
        boundary(join_spec(lines, row)[row - 1], lines[row - 1].len() as int),
        split_spec(join_spec(lines, row), row - 1, lines[row - 1].len() as int) == lines,
{
    let j = join_spec(lines, row);
    let up = lines[row - 1];
    let lo = lines[row];
    assert(j[row - 1] == up + lo);
    let cut = up.len() as int;
    assert((up + lo).subrange(0, cut) =~= up);
    assert((up + lo).subrange(cut, (up + lo).len() as int) =~= lo);
    if 0 < cut < (up + lo).len() {
        lemma_line_start_not_continuation(lo);
        assert((up + lo)[cut] == lo[0]);
    }
    assert(split_spec(j, row - 1, cut) =~= lines);
}

/// The bytes of some string: valid UTF-8.
pub open spec fn valid_line(l: Seq<u8>) -> bool {
    vstd::utf8::valid_utf8(l)
}

/// Valid UTF-8 never starts with a continuation byte.
pub proof fn lemma_line_start_not_continuation(l: Seq<u8>)
    requires
        valid_line(l),
        l.len() > 0,
    ensures
        !vstd::utf8::is_continuation_byte(l[0]),
{
    vstd::utf8::is_char_boundary_iff_not_is_continuation_byte(l, 0);
}

/// Lines taken from strings are valid UTF-8.
pub proof fn lemma_lines_valid(raw: Seq<String>)
    ensures
        forall|i: int|
            #![trigger lines_view(raw)[i]]
            0 <= i < raw.len() ==> valid_line(lines_view(raw)[i]),
{
    assert forall|i: int| #![trigger lines_view(raw)[i]] 0 <= i < raw.len() implies valid_line(
        lines_view(raw)[i],
    ) by {
        lemma_bytes_valid(raw[i]@);
    }
}

} // verus!

verus! {

/// The file form of `lines`: each line followed by a newline.
pub open spec fn saved(lines: Seq<Seq<u8>>) -> Seq<u8>
    decreases lines.len(),
{
    if lines.len() == 0 {
        Seq::empty()
    } else {
        saved(lines.drop_last()) + lines.last() + seq![NEWLINE]
    }
}

/// `content` without one trailing newline, if it ends with one.
pub open spec fn strip_newline(content: Seq<u8>) -> Seq<u8> {
    if content.len() > 0 && content.last() == NEWLINE {
        content.drop_last()
    } else {
        content
    }
}

/// No line holds a newline byte.
pub open spec fn no_newlines(lines: Seq<Seq<u8>>) -> bool {
    forall|i: int, j: int|
        #![trigger lines[i][j]]
        0 <= i < lines.len() && 0 <= j < lines[i].len() ==> lines[i][j] != NEWLINE
}

/// `lines` is what loading `content` gives: at least one line, no newline
/// inside a line, and joined by newlines they are `content` less one
/// trailing newline.
pub open spec fn loaded_from(content: Seq<u8>, lines: Seq<Seq<u8>>) -> bool {
    &&& lines.len() >= 1
    &&& no_newlines(lines)
    &&& join_lines(lines) == strip_newline(content)
}

/// The file form of the lines: each followed by a newline.
pub fn lines_to_file_text(lines: &Vec<String>) -> (r: String)
    ensures
        bytes_of(r@) == saved(lines_view(lines@)),
{
    let ghost lv = lines_view(lines@);
    let mut r = String::new();
    let mut i: usize = 0;
    while i < lines.len()
        invariant
            lv == lines_view(lines@),
            i <= lines@.len(),
            bytes_of(r@) == saved(lv.take(i as int)),
        decreases lines@.len() - i,
    {
        push_bytes(&mut r, lines[i].as_str());
        let nl = newline();
        push_bytes(&mut r, nl.as_str());
        proof {
            assert(lv.take(i + 1).drop_last() =~= lv.take(i as int));
            assert(lv.take(i + 1).last() == bytes_of(lines@[i as int]@));
        }
        i = i + 1;
    }
    proof {
        assert(lv.take(lines@.len() as int) =~= lv);
    }
    r
}

proof fn lemma_after_ascii(b: Seq<u8>, i: int)
    requires
        valid_utf8(b),
        0 <= i < b.len(),
        is_char_boundary(b, i),
        b[i] <= 0x7f,
    ensures
        is_char_boundary(b, i + 1),
    decreases b.len(),
{
    let l = length_of_first_scalar(b);
    let rest = pop_first_scalar(b);
    if i == 0 {
        assert(l == 1);
        assert(is_char_boundary(rest, 0));
    } else {
        assert(is_char_boundary(rest, i - l));
        assert(i - l >= 0);
        assert(rest[i - l] == b[i]);
        lemma_after_ascii(rest, i - l);
    }
}

/// The first `end` bytes of `content` cut at each newline, the newlines
/// dropped.
pub fn split_at_newlines(content: &str, end: usize) -> (r: Vec<String>)
    requires
        end <= bytes_of(content@).len(),
        boundary(bytes_of(content@), end as int),
    ensures
        r@.len() >= 1,
        no_newlines(lines_view(r@)),
        join_lines(lines_view(r@)) == bytes_of(content@).subrange(0, end as int),
{
    let b = content.as_bytes();
    let ghost cb = b@;
    proof {
        lemma_bytes_valid(content@);
    }
    let ghost body = cb.subrange(0, end as int);
    let mut r: Vec<String> = Vec::new();
    let mut start: usize = 0;
    let mut i: usize = 0;
    while i < end
        invariant
            cb == b@,
            cb == bytes_of(content@),
            valid_utf8(cb),
            body == cb.subrange(0, end as int),
            end <= cb.len(),
            boundary(cb, end as int),
            start <= i <= end,
            boundary(cb, start as int),
            forall|q: int| start <= q < i ==> cb[q] != NEWLINE,
            no_newlines(lines_view(r@)),
            r@.len() > 0 ==> join_lines(lines_view(r@)) + seq![NEWLINE] == cb.subrange(
                0,
                start as int,
            ),
            r@.len() == 0 ==> start == 0,
        decreases end - i,
    {
        if b[i] == NEWLINE {
            proof {
                lemma_boundary(cb, i as int);
                lemma_after_ascii(cb, i as int);
                lemma_boundary(cb, i + 1);
            }
            let piece = substring(content, start, i);
            let ghost before = lines_view(r@);
            r.push(piece);
            proof {
                let after = lines_view(r@);
                assert(after =~= before.push(cb.subrange(start as int, i as int)));
                assert(after.drop_last() =~= before);
                if before.len() > 0 {
                    assert(join_lines(after) == join_lines(before) + seq![NEWLINE] + cb.subrange(
                        start as int,
                        i as int,
                    ));
                } else {
                    assert(after =~= seq![cb.subrange(start as int, i as int)]);
                }
                assert(join_lines(after) + seq![NEWLINE] =~= cb.subrange(0, i + 1));
                assert forall|p: int, q: int|
                    #![trigger after[p][q]]
                    0 <= p < after.len() && 0 <= q < after[p].len() implies after[p][q]
                    != NEWLINE by {
                    if p < before.len() {
                        assert(after[p] == before[p]);
                    } else {
                        assert(after[p][q] == cb[start + q]);
                    }
                }
            }
            start = i + 1;
        }
        i = i + 1;
    }
    let piece = substring(content, start, end);
    let ghost before = lines_view(r@);
    r.push(piece);
    proof {
        let after = lines_view(r@);
        assert(after =~= before.push(cb.subrange(start as int, end as int)));
        assert(after.drop_last() =~= before);
        if before.len() > 0 {
            assert(join_lines(after) == join_lines(before) + seq![NEWLINE] + cb.subrange(
                start as int,
                end as int,
            ));
        } else {
            assert(after =~= seq![cb.subrange(start as int, end as int)]);
        }
        assert(join_lines(after) =~= body);
        assert(after.len() >= 1);
        assert forall|p: int, q: int|
            #![trigger after[p][q]]
            0 <= p < after.len() && 0 <= q < after[p].len() implies after[p][q] != NEWLINE by {
            if p < before.len() {
                assert(after[p] == before[p]);
            } else {
                assert(after[p][q] == cb[start + q]);
            }
        }
    }
    r
}


/// The lines of a file's text: split at each newline, after dropping one
/// trailing newline; an empty text is one empty line.
pub fn file_text_to_lines(content: &str) -> (r: Vec<String>)
    ensures
        loaded_from(bytes_of(content@), lines_view(r@)),
{
    let b = content.as_bytes();
    let ghost cb = b@;
    proof {
        lemma_bytes_valid(content@);
    }
    let end = if b.len() > 0 && b[b.len() - 1] == NEWLINE {
        b.len() - 1
    } else {
        b.len()
    };
    proof {
        assert(strip_newline(cb) =~= cb.subrange(0, end as int));
        if end < b.len() {
            lemma_boundary(cb, end as int);
            lemma_after_ascii(cb, end as int);
            lemma_boundary(cb, end + 1);
        }
    }
    split_at_newlines(content, end)
}

proof fn lemma_saved_is_joined(lines: Seq<Seq<u8>>)
    requires
        lines.len() >= 1,
    ensures
        saved(lines) == join_lines(lines) + seq![NEWLINE],
    decreases lines.len(),
{
    if lines.len() == 1 {
        assert(lines.drop_last() =~= Seq::<Seq<u8>>::empty());
        assert(saved(lines.drop_last()) == Seq::<u8>::empty());
        assert(lines.last() == lines[0]);
        assert(saved(lines) =~= join_lines(lines) + seq![NEWLINE]);
    } else {
        lemma_saved_is_joined(lines.drop_last());
        assert(saved(lines) =~= join_lines(lines) + seq![NEWLINE]);
    }
}

proof fn lemma_join_has_newline(lines: Seq<Seq<u8>>)
    requires
        lines.len() >= 2,
    ensures
        ({
            let j = join_lines(lines);
            let p = j.len() - lines.last().len() - 1;
            0 <= p && j[p] == NEWLINE && j.subrange(0, p) == join_lines(lines.drop_last())
                && j.subrange(p + 1, j.len() as int) == lines.last()
        }),
{
    let j = join_lines(lines);
    let a = join_lines(lines.drop_last());
    assert(j == a + seq![NEWLINE] + lines.last());
    assert(j.subrange(0, a.len() as int) =~= a);
    assert(j.subrange(a.len() as int + 1, j.len() as int) =~= lines.last());
}

proof fn lemma_join_no_newline(lines: Seq<Seq<u8>>)
    requires
        lines.len() == 1,
        no_newlines(lines),
    ensures
        forall|q: int| 0 <= q < join_lines(lines).len() ==> join_lines(lines)[q] != NEWLINE,
{
    assert forall|q: int| 0 <= q < join_lines(lines).len() implies join_lines(lines)[q]
        != NEWLINE by {
        assert(lines[0][q] != NEWLINE);
    }
}

proof fn lemma_no_newlines_drop_last(lines: Seq<Seq<u8>>)
    requires
        no_newlines(lines),
        lines.len() >= 1,
    ensures
        no_newlines(lines.drop_last()),
        forall|q: int| 0 <= q < lines.last().len() ==> lines.last()[q] != NEWLINE,
{
    let d = lines.drop_last();
    assert forall|i: int, j: int| #![trigger d[i][j]] 0 <= i < d.len() && 0 <= j < d[i].len() implies d[i][j]
        != NEWLINE by {
        assert(d[i] == lines[i]);
    }
    assert forall|q: int| 0 <= q < lines.last().len() implies lines.last()[q] != NEWLINE by {
        assert(lines[lines.len() - 1][q] != NEWLINE);
    }
}

/// Lines without newlines are determined by their newline-joined text.
proof fn lemma_join_unique(a: Seq<Seq<u8>>, b: Seq<Seq<u8>>)
    requires
        a.len() >= 1,
        b.len() >= 1,
        no_newlines(a),
        no_newlines(b),
        join_lines(a) == join_lines(b),
    ensures
        a == b,
    decreases a.len() + b.len(),
{
    let j = join_lines(a);
    lemma_no_newlines_drop_last(a);
    lemma_no_newlines_drop_last(b);
    if a.len() == 1 && b.len() == 1 {
        assert(a =~= b);
    } else if a.len() == 1 {
        lemma_join_no_newline(a);
        lemma_join_has_newline(b);
        let p = j.len() - b.last().len() - 1;
        assert(j[p] == NEWLINE);
    } else if b.len() == 1 {
        lemma_join_no_newline(b);
        lemma_join_has_newline(a);
        let p = j.len() - a.last().len() - 1;
        assert(j[p] == NEWLINE);
    } else {
        lemma_join_has_newline(a);
        lemma_join_has_newline(b);
        let pa = j.len() - a.last().len() - 1;
        let pb = j.len() - b.last().len() - 1;
        if pa < pb {
            assert(j.subrange(pa + 1, j.len() as int)[pb - pa - 1] == j[pb]);
        } else if pb < pa {
            assert(j.subrange(pb + 1, j.len() as int)[pa - pb - 1] == j[pa]);
        }
        assert(pa == pb);
        lemma_join_unique(a.drop_last(), b.drop_last());
        assert(a =~= a.drop_last().push(a.last()));
        assert(b =~= b.drop_last().push(b.last()));
    }
}

/// Saving lines that hold no newline and loading the text again gives the
/// same lines.
pub proof fn lemma_save_then_load(lines: Seq<Seq<u8>>, reloaded: Seq<Seq<u8>>)
    requires
        lines.len() >= 1,
        no_newlines(lines),
        loaded_from(saved(lines), reloaded),
    ensures
        reloaded == lines,
{
    lemma_saved_is_joined(lines);
    let s = saved(lines);
    assert(s.drop_last() =~= join_lines(lines));
    lemma_join_unique(reloaded, lines);
}

} // verus!

verus! {

/// Cluster `k` of `path` (clusters of byte lengths `clusters`) is the
/// single byte `c`.
pub open spec fn cluster_is(path: Seq<u8>, clusters: Seq<usize>, k: int, c: u8) -> bool {
    clusters[k] == 1 && path[prefix_sum(clusters, k)] == c
}

/// The last of the first `k` clusters that is one of `a`, `b`; -1 if none.
pub open spec fn last_cluster_of(path: Seq<u8>, clusters: Seq<usize>, k: int, a: u8, b: u8) -> int
    decreases k,
{
    if k <= 0 {
        -1
    } else if cluster_is(path, clusters, k - 1, a) || cluster_is(path, clusters, k - 1, b) {
        k - 1
    } else {
        last_cluster_of(path, clusters, k - 1, a, b)
    }
}

pub const DOT: u8 = 46;

pub const SLASH: u8 = 47;

/// The extension of `path`: what follows its last `.` when no `/` comes
/// after that `.`; `None` otherwise.
pub open spec fn extension_spec(path: Seq<u8>, clusters: Seq<usize>) -> Option<Seq<u8>> {
    let m = last_cluster_of(path, clusters, clusters.len() as int, DOT, SLASH);
    if m >= 0 && cluster_is(path, clusters, m, DOT) {
        Some(path.subrange(prefix_sum(clusters, m + 1), path.len() as int))
    } else {
        None
    }
}

/// The directory of `path`: what precedes its last `/`; `None` without one.
pub open spec fn directory_spec(path: Seq<u8>, clusters: Seq<usize>) -> Option<Seq<u8>> {
    let m = last_cluster_of(path, clusters, clusters.len() as int, SLASH, SLASH);
    if m >= 0 {
        Some(path.subrange(0, prefix_sum(clusters, m)))
    } else {
        None
    }
}

proof fn lemma_prefix_sum_steps(lens: Seq<usize>, k: int)
    requires
        0 <= k < lens.len(),
    ensures
        prefix_sum(lens, k + 1) == prefix_sum(lens, k) + lens[k],
{
}

proof fn lemma_last_cluster_range(path: Seq<u8>, clusters: Seq<usize>, k: int, a: u8, b: u8)
    requires
        0 <= k <= clusters.len(),
    ensures
        -1 <= last_cluster_of(path, clusters, k, a, b) < k,
    decreases k,
{
    if k > 0 {
        lemma_last_cluster_range(path, clusters, k - 1, a, b);
    }
}

proof fn lemma_last_cluster_is(path: Seq<u8>, clusters: Seq<usize>, k: int, a: u8, b: u8)
    ensures
        last_cluster_of(path, clusters, k, a, b) >= 0 ==> cluster_is(
            path,
            clusters,
            last_cluster_of(path, clusters, k, a, b),
            a,
        ) || cluster_is(path, clusters, last_cluster_of(path, clusters, k, a, b), b),
    decreases k,
{
    if k > 0 {
        lemma_last_cluster_is(path, clusters, k - 1, a, b);
    }
}

/// Finds, from the end, the last cluster of `path` that is byte `a` or `b`.
fn find_last_cluster(path: &[u8], clusters: &Vec<usize>, a: u8, b: u8) -> (r: Option<usize>)
    requires
        clusters_wf(clusters@, path@),
    ensures
        match r {
            Some(k) => k < clusters@.len() && k == last_cluster_of(
                path@,
                clusters@,
                clusters@.len() as int,
                a,
                b,
            ),
            None => last_cluster_of(path@, clusters@, clusters@.len() as int, a, b) == -1,
        },
{
    proof {
        lemma_last_cluster_range(path@, clusters@, clusters@.len() as int, a, b);
    }
    let mut k = clusters.len();
    let mut pos = path.len();
    while k > 0
        invariant
            clusters_wf(clusters@, path@),
            k <= clusters@.len(),
            pos == prefix_sum(clusters@, k as int),
            pos <= path@.len(),
            last_cluster_of(path@, clusters@, clusters@.len() as int, a, b) == last_cluster_of(
                path@,
                clusters@,
                k as int,
                a,
                b,
            ),
            last_cluster_of(path@, clusters@, clusters@.len() as int, a, b) < clusters@.len(),
        decreases k,
    {
        proof {
            lemma_prefix_sum_steps(clusters@, k - 1);
            assert(clusters@[k - 1] > 0);
        }
        pos = pos - clusters[k - 1];
        k = k - 1;
        if clusters[k] == 1 && (path[pos] == a || path[pos] == b) {
            return Some(k);
        }
    }
    None
}

/// The extension of `path`, whose character clusters have byte lengths
/// `clusters`; see `extension_spec`.
pub fn extension_of(path: &str, clusters: &Vec<usize>) -> (r: Option<String>)
    requires
        clusters_wf(clusters@, bytes_of(path@)),
    ensures
        match extension_spec(bytes_of(path@), clusters@) {
            Some(e) => r.is_some() && bytes_of(r->0@) == e,
            None => r.is_none(),
        },
{
    let b = path.as_bytes();
    let n = b.len();
    let _count = clusters.len();
    match find_last_cluster(b, clusters, DOT, SLASH) {
        Some(k) => {
            proof {
                lemma_prefix_sum_steps(clusters@, k as int);
                lemma_last_cluster_is(b@, clusters@, clusters@.len() as int, DOT, SLASH);
            }
            if b[prefix_sum_exec(clusters, k)] == DOT {
                let start = prefix_sum_exec(clusters, k + 1);
                Some(substring(path, start, n))
            } else {
                None
            }
        },
        None => None,
    }
}

/// The directory of `path`, whose character clusters have byte lengths
/// `clusters`; see `directory_spec`.
pub fn directory_of(path: &str, clusters: &Vec<usize>) -> (r: Option<String>)
    requires
        clusters_wf(clusters@, bytes_of(path@)),
    ensures
        match directory_spec(bytes_of(path@), clusters@) {
            Some(d) => r.is_some() && bytes_of(r->0@) == d,
            None => r.is_none(),
        },
{
    let b = path.as_bytes();
    let _n = b.len();
    match find_last_cluster(b, clusters, SLASH, SLASH) {
        Some(k) => {
            let end = prefix_sum_exec(clusters, k);
            Some(substring(path, 0, end))
        },
        None => None,
    }
}

/// The sum of the first `k` cluster lengths.
fn prefix_sum_exec(clusters: &Vec<usize>, k: usize) -> (r: usize)
    requires
        k <= clusters@.len(),
        prefix_sum(clusters@, clusters@.len() as int) <= usize::MAX,
    ensures
        r == prefix_sum(clusters@, k as int),
{
    let mut i: usize = 0;
    let mut s: usize = 0;
    while i < k
        invariant
            k <= clusters@.len(),
            prefix_sum(clusters@, clusters@.len() as int) <= usize::MAX,
            i <= k,
            s == prefix_sum(clusters@, i as int),
        decreases k - i,
    {
        proof {
            lemma_prefix_sum_steps(clusters@, i as int);
            lemma_prefix_sum_le(clusters@, i + 1, clusters@.len() as int);
        }
        s = s + clusters[i];
        i = i + 1;
    }
    s
}

proof fn lemma_prefix_sum_le(lens: Seq<usize>, j: int, k: int)
    requires
        0 <= j <= k <= lens.len(),
    ensures
        prefix_sum(lens, j) <= prefix_sum(lens, k),
    decreases k - j,
{
    if j < k {
        lemma_prefix_sum_le(lens, j, k - 1);
    }
}

impl Text {
    /// The file type: the extension of the file's path, or `?` when it has
    /// none.
    pub fn get_text_type(&self) -> (r: String)
        ensures
            match extension_spec(bytes_of(self.file_path@), grapheme_lens(self.file_path@)) {
                Some(e) => bytes_of(r@) == e,
                None => r@ == "?"@,
            },
    {
        let path = self.file_path.as_str();
        let clusters = grapheme_lengths(path);
        match extension_of(path, &clusters) {
            Some(e) => e,
            None => String::from_str("?"),
        }
    }

    /// The directory of the file's path, or `~` when it has none.
    pub fn get_text_dir(&self) -> (r: String)
        ensures
            match directory_spec(bytes_of(self.file_path@), grapheme_lens(self.file_path@)) {
                Some(d) => bytes_of(r@) == d,
                None => r@ == "~"@,
            },
    {
        let path = self.file_path.as_str();
        let clusters = grapheme_lengths(path);
        match directory_of(path, &clusters) {
            Some(d) => d,
            None => String::from_str("~"),
        }
    }
}

} // verus!

verus! {

/// After inserting `ins` at boundary `x` of `l`, the position just after
/// the inserted bytes is a boundary of the new line.
pub proof fn lemma_insert_boundary(l: Seq<u8>, x: int, ins: Seq<u8>)
    requires
        valid_line(l),
        0 <= x <= l.len(),
        boundary(l, x),
    ensures
        boundary(l.subrange(0, x) + ins + l.subrange(x, l.len() as int), x + ins.len()),
{
    let n = l.subrange(0, x) + ins + l.subrange(x, l.len() as int);
    if x < l.len() {
        assert(n[x + ins.len()] == l[x]);
        if x == 0 {
            lemma_line_start_not_continuation(l);
        }
    }
}

} // verus!

verus! {

/// Where two lines meet after `b` is appended to `a`, there is a boundary.
pub proof fn lemma_concat_boundary(a: Seq<u8>, b: Seq<u8>)
    requires
        valid_line(b),
    ensures
        boundary(a + b, a.len() as int),
{
    if b.len() > 0 {
        assert((a + b)[a.len() as int] == b[0]);
        lemma_line_start_not_continuation(b);
    }
}

/// The tail of a line from a boundary on is itself valid UTF-8.
pub proof fn lemma_tail_valid(l: Seq<u8>, x: int)
    requires
        valid_line(l),
        0 <= x <= l.len(),
        boundary(l, x),
    ensures
        valid_line(l.subrange(x, l.len() as int)),
{
    lemma_boundary(l, x);
    vstd::utf8::valid_utf8_split(l, x);
}

} // verus!

verus! {

/// The number of newline bytes in `b`.
pub open spec fn newline_count(b: Seq<u8>) -> int
    decreases b.len(),
{
    if b.len() == 0 {
        0
    } else {
        newline_count(b.drop_last()) + if b.last() == NEWLINE { 1int } else { 0 }
    }
}

proof fn lemma_newline_count_concat(a: Seq<u8>, b: Seq<u8>)
    ensures
        newline_count(a + b) == newline_count(a) + newline_count(b),
    decreases b.len(),
{
    if b.len() == 0 {
        assert(a + b =~= a);
    } else {
        lemma_newline_count_concat(a, b.drop_last());
        assert((a + b).drop_last() =~= a + b.drop_last());
    }
}

proof fn lemma_newline_count_none(b: Seq<u8>)
    requires
        forall|q: int| 0 <= q < b.len() ==> b[q] != NEWLINE,
    ensures
        newline_count(b) == 0,
    decreases b.len(),
{
    if b.len() > 0 {
        lemma_newline_count_none(b.drop_last());
    }
}

/// Lines without newlines, joined by newlines, hold one newline fewer
/// than there are lines.
pub proof fn lemma_join_newline_count(lines: Seq<Seq<u8>>)
    requires
        lines.len() >= 1,
        no_newlines(lines),
    ensures
        newline_count(join_lines(lines)) == lines.len() - 1,
    decreases lines.len(),
{
    lemma_no_newlines_drop_last(lines);
    lemma_newline_count_none(lines.last());
    if lines.len() == 1 {
        assert(lines.last() == lines[0]);
    } else {
        lemma_join_newline_count(lines.drop_last());
        let j = join_lines(lines.drop_last());
        lemma_newline_count_concat(j, seq![NEWLINE]);
        lemma_newline_count_concat(j + seq![NEWLINE], lines.last());
        assert(newline_count(seq![NEWLINE]) == 1) by {
            assert(seq![NEWLINE].drop_last() =~= Seq::<u8>::empty());
            assert(newline_count(Seq::<u8>::empty()) == 0);
            assert(seq![NEWLINE].last() == NEWLINE);
        }
    }
}

} // verus!
