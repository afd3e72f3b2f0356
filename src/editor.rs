//! The state of one editing session.
use vstd::prelude::*;

use crate::autocomplete::CompletionEngine;
use crate::bytes::{
    boundary, byte_len, bytes_of, is_boundary_at, lemma_bytes_valid, lines_view, push_bytes,
    substring,
};
use crate::cursor::{floor_boundary, Cursor};
use crate::search::SearchHandler;
use crate::select::SelectHandler;
use crate::syntax::SyntaxHandler;
use crate::text::{
    delete_spec, insert_spec, join_spec, lemma_concat_boundary, lemma_insert_boundary,
    lemma_lines_valid, lemma_tail_valid, valid_line, Text,
};
use crate::undo::UndoHandler;
use vstd::utf8::encode_utf8;

verus! {

pub struct Editor {
    pub text: Text,
    pub cursor: Cursor,
    pub selected: SelectHandler,
    pub undo_handler: UndoHandler,
    pub search_handler: SearchHandler,
    pub syntax_handler: Option<SyntaxHandler>,
    pub completion_engine: CompletionEngine,
    /// Characters typed since the last snapshot.
    pub char_timer: usize,
}

impl Editor {
    /// Every part is consistent with the document.
    pub open spec fn wf(&self) -> bool {
        &&& self.text.wf()
        &&& self.cursor.wf(self.text.lines())
        &&& self.undo_handler.wf()
        &&& self.search_handler.wf()
        &&& self.completion_engine.wf()
    }

    /// A new session on one empty line.
    pub fn create() -> (r: Editor)
        ensures
            r.wf(),
            r.text.lines() == seq![Seq::<u8>::empty()],
            r.cursor == (Cursor { x: 0, y: 0, wanted_x: 0, number_w: 0, screen_x: 0, screen_y: 0 }),
            r.syntax_handler.is_none(),
            r.char_timer == 0,
            r.selected == (SelectHandler { old_x: 0, old_y: 0, x1: 0, y1: 0, x2: 0, y2: 0 }),
            r.undo_handler.history().len() == 0,
            r.undo_handler.current() == 0,
            !r.search_handler.active,
            r.search_handler.search_string@ == Seq::<char>::empty(),
            r.search_handler.found_places@ == Seq::<(usize, usize)>::empty(),
            r.search_handler.cur_index == 0,
            r.completion_engine.vocabulary() == Seq::<Seq<char>>::empty(),
            !r.completion_engine.list_mode,
            r.text.file_path@ == Seq::<char>::empty(),
    {
        let mut lines: Vec<String> = Vec::new();
        lines.push(String::new());
        let text = Text::new(lines);
        proof {
            assert(text.lines() =~= seq![Seq::<u8>::empty()]);
        }
        Editor {
            text,
            cursor: Cursor::new(0, 0),
            selected: SelectHandler::new(),
            undo_handler: UndoHandler::new(),
            search_handler: SearchHandler::new(),
            syntax_handler: None,
            completion_engine: CompletionEngine::new(),
            char_timer: 0,
        }
    }
}

} // verus!

verus! {

/// Whether a byte counts as leading or trailing white space of a line.
pub open spec fn is_space(b: u8) -> bool {
    b == 32 || b == 9 || b == 10 || b == 11 || b == 12 || b == 13
}

/// The number of white-space bytes that start `l`.
pub open spec fn indent_width(l: Seq<u8>) -> int
    decreases l.len(),
{
    if l.len() > 0 && is_space(l[0]) {
        1 + indent_width(l.drop_first())
    } else {
        0
    }
}

/// The last byte of `l` that is not white space, if any.
pub open spec fn last_visible(l: Seq<u8>) -> Option<u8>
    decreases l.len(),
{
    if l.len() == 0 {
        None
    } else if is_space(l.last()) {
        last_visible(l.drop_last())
    } else {
        Some(l.last())
    }
}

/// A line that ends (ignoring white space) with `{`, `:` or `(` opens a
/// block, and the next line is indented one step further.
pub open spec fn opens_block(l: Seq<u8>) -> bool {
    last_visible(l) == Some(123u8) || last_visible(l) == Some(58u8) || last_visible(l) == Some(
        40u8,
    )
}

/// The indentation of the line that a newline starts after `head`: that of
/// `head`, one step more after a block opener (when that still fits in a
/// `usize`).
pub open spec fn new_line_indent(head: Seq<u8>) -> int {
    if opens_block(head) && indent_width(head) + INDENT <= usize::MAX {
        indent_width(head) + INDENT
    } else {
        indent_width(head)
    }
}

/// Spaces one indentation step adds.
pub const INDENT: usize = 4;

/// The `x` bytes of `l` before the cursor end with one indentation step of
/// spaces.
pub open spec fn ends_with_indent(l: Seq<u8>, x: int) -> bool {
    x >= INDENT && l[x - 1] == 32 && l[x - 2] == 32 && l[x - 3] == 32 && l[x - 4] == 32
}

/// `n` spaces.
pub open spec fn spaces(n: int) -> Seq<u8> {
    Seq::new(n as nat, |i: int| 32u8)
}

proof fn lemma_indent_width_bound(l: Seq<u8>)
    ensures
        0 <= indent_width(l) <= l.len(),
        forall|i: int| 0 <= i < indent_width(l) ==> is_space(l[i]),
    decreases l.len(),
{
    if l.len() > 0 && is_space(l[0]) {
        lemma_indent_width_bound(l.drop_first());
        assert forall|i: int| 0 <= i < indent_width(l) implies is_space(l[i]) by {
            if i > 0 {
                assert(l[i] == l.drop_first()[i - 1]);
            }
        }
    }
}

/// The indentation width of the first `end` bytes of `line`.
fn count_indent(line: &[u8], end: usize) -> (r: usize)
    requires
        end <= line@.len(),
    ensures
        r == indent_width(line@.subrange(0, end as int)),
{
    let ghost l = line@.subrange(0, end as int);
    let mut i: usize = 0;
    assert(l.subrange(0, l.len() as int) =~= l);
    while i < end && (line[i] == 32 || line[i] == 9 || line[i] == 10 || line[i] == 11 || line[i]
        == 12 || line[i] == 13)
        invariant
            l == line@.subrange(0, end as int),
            end <= line@.len(),
            i <= end,
            indent_width(l) == i + indent_width(l.subrange(i as int, end as int)),
        decreases end - i,
    {
        assert(l.subrange(i as int, end as int).drop_first() =~= l.subrange(i + 1, end as int));
        i = i + 1;
    }
    assert(indent_width(l.subrange(i as int, end as int)) == 0);
    i
}

/// The last byte of the first `end` bytes of `line` that is not white
/// space.
fn find_last_visible(line: &[u8], end: usize) -> (r: Option<u8>)
    requires
        end <= line@.len(),
    ensures
        r == last_visible(line@.subrange(0, end as int)),
{
    let ghost l = line@.subrange(0, end as int);
    let mut i: usize = end;
    assert(l.subrange(0, end as int) =~= l);
    while i > 0 && (line[i - 1] == 32 || line[i - 1] == 9 || line[i - 1] == 10 || line[i - 1] == 11
        || line[i - 1] == 12 || line[i - 1] == 13)
        invariant
            l == line@.subrange(0, end as int),
            end <= line@.len(),
            i <= end,
            last_visible(l) == last_visible(l.subrange(0, i as int)),
        decreases i,
    {
        assert(l.subrange(0, i as int).drop_last() =~= l.subrange(0, i - 1));
        i = i - 1;
    }
    if i == 0 {
        proof {
            assert(l.subrange(0, 0) =~= Seq::<u8>::empty());
        }
        None
    } else {
        assert(l.subrange(0, i as int).last() == line@[i - 1]);
        Some(line[i - 1])
    }
}

/// A string of `n` spaces.
fn space_string(n: usize) -> (r: String)
    ensures
        bytes_of(r@) == spaces(n as int),
{
    let mut r = String::new();
    let one = String::from_str(" ");
    proof {
        reveal_strlit(" ");
        let c: u32 = ' ' as u32;
        assert(c == 32);
        assert((c & 0x7f) as u8 == 32) by (bit_vector)
            requires
                c == 32,
        ;
        assert(one@.drop_first() =~= Seq::<char>::empty());
        assert(encode_utf8(one@.drop_first()) == Seq::<u8>::empty());
        assert(bytes_of(one@) =~= seq![32u8]);
    }
    let mut i: usize = 0;
    while i < n
        invariant
            bytes_of(one@) == seq![32u8],
            i <= n,
            bytes_of(r@) == spaces(i as int),
        decreases n - i,
    {
        push_bytes(&mut r, one.as_str());
        proof {
            assert(spaces(i as int) + seq![32u8] =~= spaces(i + 1));
        }
        i = i + 1;
    }
    r
}

impl Editor {
    /// The cursor's buffer row.
    fn row(&self) -> (r: usize)
        requires
            self.wf(),
        ensures
            r == self.cursor.row(),
            r < self.text.raw@.len(),
            self.text.lines().len() == self.text.raw@.len(),
    {
        let _n = self.text.raw.len();
        assert(self.text.lines().len() == self.text.raw@.len());
        self.cursor.get_absolute_y()
    }

    /// Inserts `input` at the cursor and moves the cursor after it; the
    /// selection is cleared, one more typed character is counted, and an
    /// open completion list is refreshed (and closed when it empties).
    pub fn insert_input(&mut self, input: &str)
        requires
            old(self).wf(),
        ensures
            final(self).wf(),
            final(self).text.lines() == insert_spec(
                old(self).text.lines(),
                old(self).cursor.row(),
                old(self).cursor.x as int,
                bytes_of(input@),
            ),
            final(self).cursor == (Cursor {
                x: (old(self).cursor.x + bytes_of(input@).len()) as usize,
                ..old(self).cursor
            }),
            final(self).selected.x1 == 0 && final(self).selected.y1 == 0
                && final(self).selected.x2 == 0 && final(self).selected.y2 == 0,
            final(self).char_timer == if old(self).char_timer < usize::MAX {
                old(self).char_timer + 1
            } else {
                old(self).char_timer as int
            },
    {
        self.insert_at_cursor(input);
        if self.completion_engine.list_mode {
            self.completion_engine.complete(&self.text.raw, &self.cursor);
            if self.completion_engine.completion_list.len() == 0 {
                self.completion_engine.list_mode = false;
            }
        }
        self.selected.reset_selection();
        if self.char_timer < usize::MAX {
            self.char_timer = self.char_timer + 1;
        }
    }

    /// Inserts `ins` at the cursor and moves the cursor after it.
    fn insert_at_cursor(&mut self, ins: &str)
        requires
            old(self).wf(),
        ensures
            final(self).wf(),
            final(self).text.lines() == insert_spec(
                old(self).text.lines(),
                old(self).cursor.row(),
                old(self).cursor.x as int,
                bytes_of(ins@),
            ),
            final(self).cursor == (Cursor {
                x: (old(self).cursor.x + bytes_of(ins@).len()) as usize,
                ..old(self).cursor
            }),
            final(self).selected == old(self).selected,
            final(self).char_timer == old(self).char_timer,
            final(self).completion_engine == old(self).completion_engine,
            final(self).text.file_path == old(self).text.file_path,
    {
        let ghost lines = self.text.lines();
        let row = self.row();
        let x = self.cursor.x;
        proof {
            lemma_lines_valid(self.text.raw@);
            assert(valid_line(lines[row as int]));
            lemma_insert_boundary(lines[row as int], x as int, bytes_of(ins@));
        }
        let _r = self.text.insert_text(row, x, ins);
        assert(self.text.lines().len() == self.text.raw@.len());
        let len = byte_len(ins);
        let _n = byte_len(self.text.raw[row].as_str());
        assert(self.text.lines()[row as int] == bytes_of(self.text.raw@[row as int]@));
        self.cursor.x = x + len;
    }

    /// Ends the line at the cursor. The new line below holds the rest of
    /// the line after `new_line_indent` spaces, and the cursor moves there,
    /// after the spaces. An undo snapshot is then recorded and the
    /// selection cleared.
    pub fn insert_newline(&mut self)
        requires
            old(self).wf(),
        ensures
            final(self).wf(),
            ({
                let row = old(self).cursor.row();
                let x = old(self).cursor.x as int;
                let l = old(self).text.lines()[row];
                let k = new_line_indent(l.subrange(0, x));
                &&& final(self).text.lines() == old(self).text.lines().subrange(0, row).push(
                    l.subrange(0, x),
                ).push(spaces(k) + l.subrange(x, l.len() as int)) + old(self).text.lines().subrange(
                    row + 1,
                    old(self).text.lines().len() as int,
                )
                &&& final(self).cursor == (Cursor {
                    x: k as usize,
                    y: (old(self).cursor.y + 1) as usize,
                    wanted_x: 0,
                    ..old(self).cursor
                })
            }),
            final(self).char_timer == 0,
            final(self).selected.x1 == 0 && final(self).selected.y1 == 0
                && final(self).selected.x2 == 0 && final(self).selected.y2 == 0,
    {
        let ghost lines = self.text.lines();
        let row = self.row();
        let x = self.cursor.x;
        let line = self.text.raw[row].as_str().as_bytes();
        let ghost l = lines[row as int];
        assert(line@ == l);
        let indent = count_indent(line, x);
        let opens = match find_last_visible(line, x) {
            Some(b) => b == 123 || b == 58 || b == 40,
            None => false,
        };
        let k = if opens && indent <= usize::MAX - INDENT {
            indent + INDENT
        } else {
            indent
        };
        let _r = self.text.split_line(row, x);
        let _n = self.text.raw.len();
        let ghost mid = self.text.lines();
        assert(mid.len() == self.text.raw@.len());
        assert(mid[row + 1] == l.subrange(x as int, l.len() as int));
        let pad = space_string(k);
        proof {
            lemma_lines_valid(self.text.raw@);
            assert(valid_line(mid[row + 1]));
            lemma_insert_boundary(mid[row + 1], 0, spaces(k as int));
        }
        let _r = self.text.insert_text(row + 1, 0, pad.as_str());
        proof {
            let t = mid[row + 1];
            assert(t.subrange(0, 0) + spaces(k as int) + t.subrange(0, t.len() as int) =~= spaces(
                k as int,
            ) + t);
            assert(self.text.lines() =~= lines.subrange(0, row as int).push(
                l.subrange(0, x as int),
            ).push(spaces(k as int) + l.subrange(x as int, l.len() as int)) + lines.subrange(
                row + 1,
                lines.len() as int,
            ));
        }
        self.cursor.x = k;
        self.cursor.wanted_x = 0;
        self.cursor.y = self.cursor.y + 1;
        crate::utils::update_timer(self);
        self.selected.reset_selection();
    }

    /// Deletes the selected text, joining what precedes it on its first row
    /// with what follows it on its last row; the cursor goes to where the
    /// selection started, and an undo snapshot is recorded.
    fn delete_selection(&mut self)
        requires
            old(self).wf(),
            old(self).selected.wf(old(self).text.lines()),
        ensures
            final(self).wf(),
            ({
                let s = old(self).selected;
                let lines = old(self).text.lines();
                let l1 = lines[s.y1 as int];
                let l2 = lines[s.y2 as int];
                &&& final(self).text.lines() == lines.subrange(0, s.y1 as int).push(
                    l1.subrange(0, s.x1 as int) + l2.subrange(s.x2 as int, l2.len() as int),
                ) + lines.subrange(s.y2 + 1, lines.len() as int)
                &&& final(self).cursor.row() == s.y1
                &&& final(self).cursor.x == s.x1
                &&& final(self).cursor.wanted_x == s.x1
            }),
            final(self).completion_engine.list_mode == old(self).completion_engine.list_mode,
    {
        let ghost lines = self.text.lines();
        let _n = self.text.raw.len();
        let x1 = self.selected.x1;
        let y1 = self.selected.y1;
        let x2 = self.selected.x2;
        let y2 = self.selected.y2;
        let ghost l1 = lines[y1 as int];
        let ghost l2 = lines[y2 as int];
        let mut joined = substring(self.text.raw[y1].as_str(), 0, x1);
        let n2 = byte_len(self.text.raw[y2].as_str());
        let tail = substring(self.text.raw[y2].as_str(), x2, n2);
        push_bytes(&mut joined, tail.as_str());
        let ghost j = l1.subrange(0, x1 as int) + l2.subrange(x2 as int, l2.len() as int);
        assert(bytes_of(joined@) == j);
        self.text.raw.set(y1, joined);
        let mut k = y1 + 1;
        while k <= y2
            invariant
                y1 < k <= y2 + 1,
                y2 < lines.len(),
                lines.len() <= usize::MAX,
                self.text.lines() == lines.subrange(0, y1 as int).push(j) + lines.subrange(
                    k as int,
                    lines.len() as int,
                ),
                self.text.raw@.len() == self.text.lines().len(),
                self.text.file_path == old(self).text.file_path,
                self.undo_handler == old(self).undo_handler,
                self.completion_engine == old(self).completion_engine,
                self.search_handler == old(self).search_handler,
                self.cursor == old(self).cursor,
                self.selected == old(self).selected,
                old(self).wf(),
            decreases y2 + 1 - k,
        {
            let ghost before = self.text.raw@;
            let _gone = self.text.raw.remove(y1 + 1);
            proof {
                assert(lines_view(self.text.raw@) =~= lines_view(before).remove(y1 + 1));
                assert(self.text.lines() =~= lines.subrange(0, y1 as int).push(j) + lines.subrange(
                    k + 1,
                    lines.len() as int,
                ));
            }
            k = k + 1;
        }
        proof {
            lemma_lines_valid(self.text.raw@);
            assert(self.text.lines()[y1 as int] == j);
            lemma_lines_valid(old(self).text.raw@);
            assert(valid_line(l2));
            lemma_tail_valid(l2, x2 as int);
            lemma_concat_boundary(l1.subrange(0, x1 as int), l2.subrange(x2 as int, l2.len() as int));
        }
        if y1 >= self.cursor.screen_y {
            self.cursor.y = y1 - self.cursor.screen_y;
        } else {
            self.cursor.screen_y = y1;
            self.cursor.y = 0;
        }
        self.cursor.x = x1;
        self.cursor.wanted_x = x1;
        crate::utils::update_timer(self);
    }

    /// Whether the selection is well formed for the current text.
    fn selection_fits(&self) -> (r: bool)
        requires
            self.wf(),
        ensures
            r == self.selected.wf(self.text.lines()),
    {
        let s = &self.selected;
        let n = self.text.raw.len();
        assert(self.text.lines().len() == n);
        if !(s.y1 <= s.y2 && s.y2 < n) {
            return false;
        }
        if s.y1 == s.y2 && s.x1 > s.x2 {
            return false;
        }
        self.text.is_boundary(s.y1, s.x1) && self.text.is_boundary(s.y2, s.x2)
    }

    /// Backspace: deletes the selection when there is one; else, with the
    /// cursor inside a line, the indentation step of spaces just before it
    /// (when there are four) or else the character before it; else, at the
    /// start of a line below the first, joins the line to the one above.
    /// The selection is cleared.
    pub fn backspace(&mut self)
        requires
            old(self).wf(),
        ensures
            final(self).wf(),
            ({
                let c = old(self).cursor;
                let lines = old(self).text.lines();
                let l = lines[c.row()];
                let sel = old(self).selected;
                if !(sel.x1 == sel.x2 && sel.y1 == sel.y2) && sel.wf(lines) {
                    &&& final(self).text.lines() == lines.subrange(0, sel.y1 as int).push(
                        lines[sel.y1 as int].subrange(0, sel.x1 as int) + lines[sel.y2 as int].subrange(
                            sel.x2 as int,
                            lines[sel.y2 as int].len() as int,
                        ),
                    ) + lines.subrange(sel.y2 + 1, lines.len() as int)
                    &&& final(self).cursor.row() == sel.y1
                    &&& final(self).cursor.x == sel.x1
                } else if c.x > 0 {
                    let p = if ends_with_indent(l, c.x as int) {
                        c.x - INDENT
                    } else {
                        floor_boundary(l, c.x - 1)
                    };
                    &&& final(self).text.lines() == delete_spec(lines, c.row(), p, c.x - p)
                    &&& final(self).cursor == (Cursor { x: p as usize, wanted_x: p as usize, ..c })
                } else if c.row() > 0 {
                    &&& final(self).text.lines() == join_spec(lines, c.row())
                    &&& final(self).cursor.row() == c.row() - 1
                    &&& final(self).cursor.x == lines[c.row() - 1].len()
                    &&& final(self).cursor.wanted_x == final(self).cursor.x
                    &&& !final(self).completion_engine.list_mode
                } else {
                    final(self).text.lines() == lines && final(self).cursor == c
                }
            }),
            final(self).selected.x1 == 0 && final(self).selected.y1 == 0
                && final(self).selected.x2 == 0 && final(self).selected.y2 == 0,
    {
        if !self.selected.is_empty() && self.selection_fits() {
            self.delete_selection();
        } else if self.cursor.x > 0 {
            let ghost lines = self.text.lines();
            let row = self.row();
            let x = self.cursor.x;
            let four = {
                let line = self.text.raw[row].as_str().as_bytes();
                x >= INDENT && line[x - 1] == 32 && line[x - 2] == 32 && line[x - 3] == 32
                    && line[x - 4] == 32
            };
            assert(four == ends_with_indent(lines[row as int], x as int));
            if four {
                let _r = self.text.delete_range(row, x - INDENT, INDENT);
                self.cursor.x = x - INDENT;
                self.cursor.wanted_x = x - INDENT;
                proof {
                    lemma_lines_valid(self.text.raw@);
                    let l = lines[row as int];
                    let nl = self.text.lines()[row as int];
                    assert(nl == l.subrange(0, x - 4) + l.subrange(x as int, l.len() as int));
                    if x < l.len() {
                        assert(nl[x - 4] == l[x as int]);
                    }
                }
            } else {
                self.cursor.left(&self.text.raw);
                let p = self.cursor.x;
                proof {
                    crate::cursor::lemma_floor_le(lines[row as int], x - 1);
                }
                let _r = self.text.delete_range(row, p, x - p);
                proof {
                    lemma_lines_valid(self.text.raw@);
                    let l = lines[row as int];
                    let nl = self.text.lines()[row as int];
                    assert(nl == l.subrange(0, p as int) + l.subrange(x as int, l.len() as int));
                    if x < l.len() {
                        assert(nl[p as int] == l[x as int]);
                    }
                }
            }
            assert(self.text.lines().len() == self.text.raw@.len());
            if self.completion_engine.list_mode {
                self.completion_engine.complete(&self.text.raw, &self.cursor);
            }
        } else if self.row() > 0 {
            let ghost lines = self.text.lines();
            let row = self.row();
            let prev = byte_len(self.text.raw[row - 1].as_str());
            let _r = self.text.join_with_previous(row);
            proof {
                lemma_lines_valid(old(self).text.raw@);
                assert(valid_line(lines[row as int]));
                lemma_concat_boundary(lines[row - 1], lines[row as int]);
                assert(self.text.lines()[row - 1] == lines[row - 1] + lines[row as int]);
            }
            self.cursor.x = prev;
            self.cursor.wanted_x = prev;
            if self.cursor.y == 0 {
                self.cursor.screen_y = self.cursor.screen_y - 1;
            } else {
                self.cursor.y = self.cursor.y - 1;
            }
            self.completion_engine.list_mode = false;
            assert(self.text.lines().len() == self.text.raw@.len());
        }
        self.selected.reset_selection();
    }

    /// Completes the word under the cursor with candidate `k` of the
    /// completion list: inserts what the candidate adds to the current word
    /// and moves the cursor after it. Returns whether it did.
    pub fn complete_word(&mut self, k: usize) -> (r: bool)
        requires
            old(self).wf(),
        ensures
            final(self).wf(),
            ({
                let list = old(self).completion_engine.completion_list@;
                let cur = bytes_of(old(self).completion_engine.cur_word@);
                let fits = k < list.len() && cur.is_prefix_of(bytes_of(list[k as int]@)) && boundary(
                    bytes_of(list[k as int]@),
                    cur.len() as int,
                );
                let add = bytes_of(list[k as int]@).subrange(
                    cur.len() as int,
                    bytes_of(list[k as int]@).len() as int,
                );
                &&& r == fits
                &&& fits ==> final(self).text.lines() == insert_spec(
                    old(self).text.lines(),
                    old(self).cursor.row(),
                    old(self).cursor.x as int,
                    add,
                ) && final(self).cursor == (Cursor {
                    x: (old(self).cursor.x + add.len()) as usize,
                    ..old(self).cursor
                })
                &&& !fits ==> final(self).text == old(self).text && final(self).cursor == old(
                    self,
                ).cursor
            }),
            final(self).completion_engine == old(self).completion_engine,
    {
        if k >= self.completion_engine.completion_list.len() {
            return false;
        }
        let cand = self.completion_engine.completion_list[k].as_str();
        let cur = self.completion_engine.cur_word.as_str();
        let c = byte_len(cur);
        let n = byte_len(cand);
        let starts = {
            let cb = cand.as_bytes();
            let pb = cur.as_bytes();
            if c > n {
                false
            } else {
                let mut i: usize = 0;
                let mut same = true;
                while i < c
                    invariant
                        c == pb@.len(),
                        c <= cb@.len(),
                        i <= c,
                        same == forall|q: int| 0 <= q < i ==> cb@[q] == pb@[q],
                    decreases c - i,
                {
                    if cb[i] != pb[i] {
                        same = false;
                    }
                    i = i + 1;
                }
                proof {
                    if same {
                        assert(pb@ =~= cb@.subrange(0, c as int));
                    } else {
                        let q = choose|q: int| 0 <= q < c && cb@[q] != pb@[q];
                        assert(cb@.subrange(0, c as int)[q] != pb@[q]);
                        assert(pb@ != cb@.subrange(0, c as int));
                    }
                }
                same
            }
        };
        if !starts || !is_boundary_at(cand, c) {
            return false;
        }
        let add = substring(cand, c, n);
        self.insert_at_cursor(add.as_str());
        true
    }

    /// Moves the cursor to the next search match, row by row with `up` and
    /// `down` and then character by character, as a user would. With at
    /// least two usable viewport rows and a match that still fits the text,
    /// the cursor ends exactly on it.
    pub fn goto_next_match(&mut self, rows: usize)
        requires
            old(self).wf(),
        ensures
            final(self).wf(),
            final(self).text == old(self).text,
            final(self).search_handler.found_places == old(self).search_handler.found_places,
            ({
                let found = old(self).search_handler.found_places@;
                let lines = old(self).text.lines();
                found.len() > 0 ==> {
                    let (mx, my) = found[old(self).search_handler.cur_index as int];
                    &&& final(self).search_handler.cur_index == crate::search::next_index(
                        old(self).search_handler.cur_index as int,
                        found.len() as int,
                    )
                    &&& rows >= 2 && my < lines.len() && mx <= lines[my as int].len() && boundary(
                        lines[my as int],
                        mx as int,
                    ) ==> final(self).cursor.row() == my && final(self).cursor.x == mx
                }
            }),
    {
        let ghost lines = self.text.lines();
        let _n = self.text.raw.len();
        assert(lines.len() == self.text.raw@.len());
        match self.search_handler.next_string_pos() {
            Some((mx, my)) => {
                let ghost sh = self.search_handler;
                let ghost fits = rows >= 2 && my < lines.len() && mx <= lines[my as int].len()
                    && boundary(lines[my as int], mx as int);
                let ghost start = self.cursor.row();
                while self.row() > my
                    invariant
                        self.wf(),
                        self.text == old(self).text,
                        self.search_handler == sh,
                        lines == self.text.lines(),
                        rows >= 2 && start >= my ==> self.cursor.row() >= my,
                        rows >= 2 && start < my ==> self.cursor.row() == start,
                    decreases self.cursor.row(),
                {
                    self.cursor.up(&self.text.raw, rows);
                }
                let ghost mid = self.cursor.row();
                while self.row() < my && self.row() < self.text.raw.len() - 1
                    invariant
                        self.wf(),
                        self.text == old(self).text,
                        lines == self.text.lines(),
                        lines.len() == self.text.raw@.len(),
                        self.search_handler == sh,
                        rows >= 2 && my < lines.len() ==> self.cursor.row() <= my,
                        rows >= 2 && my < lines.len() && mid >= my ==> self.cursor.row() == my,
                    decreases lines.len() - self.cursor.row(),
                {
                    self.cursor.down(&self.text.raw, rows);
                }
                proof {
                    if fits {
                        assert(self.cursor.row() == my);
                    }
                }
                let ghost l = lines[self.cursor.row()];
                let ghost x0 = self.cursor.x;
                while self.cursor.x > mx
                    invariant
                        self.wf(),
                        self.text == old(self).text,
                        lines == self.text.lines(),
                        self.search_handler == sh,
                        l == lines[self.cursor.row()],
                        fits ==> self.cursor.row() == my,
                        fits && x0 >= mx ==> self.cursor.x >= mx,
                        fits ==> rows >= 2 && my < lines.len() && mx <= lines[my as int].len()
                            && boundary(lines[my as int], mx as int),
                    decreases self.cursor.x,
                {
                    proof {
                        crate::cursor::lemma_floor_le(l, self.cursor.x - 1);
                        if fits {
                            crate::cursor::lemma_floor_ge(l, mx as int, self.cursor.x - 1);
                        }
                    }
                    self.cursor.left(&self.text.raw);
                }
                while self.cursor.x < mx && self.cursor.x < byte_len(
                    self.text.raw[self.row()].as_str(),
                )
                    invariant
                        self.wf(),
                        self.text == old(self).text,
                        lines == self.text.lines(),
                        self.search_handler == sh,
                        l == lines[self.cursor.row()],
                        fits ==> self.cursor.row() == my && self.cursor.x <= mx,
                        fits ==> rows >= 2 && my < lines.len() && mx <= lines[my as int].len()
                            && boundary(lines[my as int], mx as int),
                    decreases l.len() - self.cursor.x,
                {
                    proof {
                        crate::cursor::lemma_ceil_skips(l, self.cursor.x + 1);
                        if fits {
                            crate::cursor::lemma_ceil_le(l, mx as int, self.cursor.x + 1);
                        }
                    }
                    self.cursor.right(&self.text.raw);
                }
            },
            None => {},
        }
    }

    /// Replaces the document with the lines of `content`, read from
    /// `path`: the cursor goes to the start, the undo history restarts with
    /// a snapshot of the new document, and its words join the vocabulary.
    pub fn open_document(&mut self, content: &str, path: String)
        requires
            old(self).wf(),
        ensures
            final(self).wf(),
            crate::text::loaded_from(bytes_of(content@), final(self).text.lines()),
            final(self).text.file_path == path,
            final(self).cursor == (Cursor {
                x: 0,
                y: 0,
                wanted_x: 0,
                screen_y: 0,
                ..old(self).cursor
            }),
            final(self).undo_handler.history() == seq![
                crate::undo::snapshot_of(final(self).cursor, final(self).text.raw@),
            ],
            final(self).char_timer == 0,
    {
        self.text.raw = crate::text::file_text_to_lines(content);
        self.text.file_path = path;
        self.cursor.x = 0;
        self.cursor.wanted_x = 0;
        self.cursor.screen_y = 0;
        self.cursor.y = 0;
        self.undo_handler.clear_states();
        proof {
            assert(self.text.lines().len() == self.text.raw@.len());
        }
        crate::utils::update_timer(self);
        proof {
            assert(Seq::<crate::undo::Snapshot>::empty().push(
                crate::undo::snapshot_of(self.cursor, self.text.raw@),
            ) =~= seq![crate::undo::snapshot_of(self.cursor, self.text.raw@)]);
        }
    }

    /// Pastes `clip` line by line: each line goes in at the cursor; after
    /// every line but the last an empty line is opened below the cursor's
    /// row, and the cursor moves past the pasted line and then down. An
    /// undo snapshot is recorded at the end.
    pub fn paste(&mut self, clip: &str, rows: usize)
        requires
            old(self).wf(),
        ensures
            final(self).wf(),
            final(self).text.lines().len() == old(self).text.lines().len()
                + crate::text::newline_count(bytes_of(clip@)),
            final(self).char_timer == 0,
            (final(self).undo_handler.history(), final(self).undo_handler.current())
                == crate::undo::push_spec(
                old(self).undo_handler.history(),
                old(self).undo_handler.current(),
                crate::undo::snapshot_of(final(self).cursor, final(self).text.raw@),
            ),
    {
        let n = byte_len(clip);
        proof {
            lemma_bytes_valid(clip@);
            vstd::utf8::is_char_boundary_start_end_of_seq(bytes_of(clip@));
            crate::bytes::lemma_boundary(bytes_of(clip@), n as int);
        }
        let pieces = crate::text::split_at_newlines(clip, n);
        proof {
            assert(bytes_of(clip@).subrange(0, n as int) =~= bytes_of(clip@));
            crate::text::lemma_join_newline_count(lines_view(pieces@));
        }
        let count = pieces.len();
        let ghost n0 = self.text.lines().len();
        let mut i: usize = 0;
        while i < count
            invariant
                self.wf(),
                count == pieces@.len(),
                count >= 1,
                i <= count,
                self.text.lines().len() == n0 + if i < count { i as int } else { count - 1 },
                self.undo_handler == old(self).undo_handler,
                self.completion_engine.wf(),
            decreases count - i,
        {
            let row = self.row();
            let x = self.cursor.x;
            let piece = pieces[i].as_str();
            let ghost l = self.text.lines()[row as int];
            proof {
                lemma_lines_valid(self.text.raw@);
                lemma_bytes_valid(piece@);
                lemma_tail_valid(l, x as int);
                vstd::utf8::valid_utf8_concat(bytes_of(piece@), l.subrange(x as int, l.len() as int));
                lemma_concat_boundary(
                    l.subrange(0, x as int),
                    bytes_of(piece@) + l.subrange(x as int, l.len() as int),
                );
                assert(l.subrange(0, x as int) + bytes_of(piece@) + l.subrange(x as int, l.len() as int)
                    =~= l.subrange(0, x as int) + (bytes_of(piece@) + l.subrange(
                    x as int,
                    l.len() as int,
                )));
                lemma_insert_boundary(l, x as int, bytes_of(piece@));
            }
            let _r = self.text.insert_text(row, x, piece);
            assert(self.text.lines().len() == self.text.raw@.len());
            if i + 1 < count {
                let len = byte_len(piece);
                let _m = byte_len(self.text.raw[row].as_str());
                assert(self.text.lines()[row as int] == bytes_of(self.text.raw@[row as int]@));
                let _k = self.text.raw.len();
                let ghost before = self.text.raw@;
                let empty = String::new();
                let ghost e = empty@;
                self.text.raw.insert(row + 1, empty);
                proof {
                    assert(lines_view(self.text.raw@) =~= lines_view(before).insert(
                        row + 1,
                        bytes_of(e),
                    ));
                }
                self.cursor.x = x + len;
                self.cursor.down(&self.text.raw, rows);
            }
            i = i + 1;
        }
        crate::utils::update_timer(self);
    }

    /// Inserts one indentation step of spaces at the cursor and closes the
    /// completion list.
    pub fn tab(&mut self)
        requires
            old(self).wf(),
        ensures
            final(self).wf(),
            final(self).text.lines() == insert_spec(
                old(self).text.lines(),
                old(self).cursor.row(),
                old(self).cursor.x as int,
                spaces(INDENT as int),
            ),
            final(self).cursor == (Cursor { x: (old(self).cursor.x + INDENT) as usize, ..old(self).cursor }),
            !final(self).completion_engine.list_mode,
    {
        let s = space_string(INDENT);
        self.insert_at_cursor(s.as_str());
        self.completion_engine.list_mode = false;
    }
}

} // verus!
