//! Text selection: an anchor and two endpoints kept in row-major order.
use vstd::prelude::*;

use crate::bytes::{boundary, byte_len, bytes_of, join_lines, newline, push_bytes, substring};
use crate::text::Text;

verus! {

pub struct SelectHandler {
    /// Where the selection was started.
    pub old_x: usize,
    pub old_y: usize,
    /// First endpoint (column, row); never after the second.
    pub x1: usize,
    pub y1: usize,
    /// Second endpoint (column, row).
    pub x2: usize,
    pub y2: usize,
}

/// The pieces of a selection that spans more than one row: the tail of the
/// first row, the rows in between, and the head of the last row.
pub open spec fn selection_pieces(lines: Seq<Seq<u8>>, x1: int, y1: int, x2: int, y2: int) -> Seq<
    Seq<u8>,
> {
    seq![lines[y1].subrange(x1, lines[y1].len() as int)] + lines.subrange(y1 + 1, y2) + seq![
        lines[y2].subrange(0, x2),
    ]
}

/// The selected text: on one row the bytes between the endpoints, else the
/// pieces joined by newlines.
pub open spec fn selected_spec(lines: Seq<Seq<u8>>, x1: int, y1: int, x2: int, y2: int) -> Seq<u8> {
    if y1 == y2 {
        lines[y1].subrange(x1, x2)
    } else {
        join_lines(selection_pieces(lines, x1, y1, x2, y2))
    }
}

/// (`xa`, `ya`) comes strictly before (`xb`, `yb`) in row-major order.
pub open spec fn before(xa: int, ya: int, xb: int, yb: int) -> bool {
    ya < yb || (ya == yb && xa < xb)
}

impl SelectHandler {
    /// Endpoints in order, on character boundaries of existing rows.
    pub open spec fn wf(&self, lines: Seq<Seq<u8>>) -> bool {
        &&& self.y1 <= self.y2 < lines.len()
        &&& self.y1 == self.y2 ==> self.x1 <= self.x2
        &&& self.x1 <= lines[self.y1 as int].len()
        &&& self.x2 <= lines[self.y2 as int].len()
        &&& boundary(lines[self.y1 as int], self.x1 as int)
        &&& boundary(lines[self.y2 as int], self.x2 as int)
    }

    /// Nothing selected, anchored at the origin.
    pub fn new() -> (r: SelectHandler)
        ensures
            r == (SelectHandler { old_x: 0, old_y: 0, x1: 0, y1: 0, x2: 0, y2: 0 }),
    {
        SelectHandler { old_x: 0, old_y: 0, x1: 0, y1: 0, x2: 0, y2: 0 }
    }

    /// Whether the endpoints coincide, so that nothing is selected.
    pub fn is_empty(&self) -> (r: bool)
        ensures
            r == (self.x1 == self.x2 && self.y1 == self.y2),
    {
        self.x1 == self.x2 && self.y1 == self.y2
    }

    /// Anchors a new, empty selection at column `x` of row `y`.
    pub fn start_at(&mut self, x: usize, y: usize)
        ensures
            *final(self) == (SelectHandler { old_x: x, old_y: y, x1: x, y1: y, x2: x, y2: y }),
    {
        self.old_x = x;
        self.old_y = y;
        self.x1 = x;
        self.y1 = y;
        self.x2 = x;
        self.y2 = y;
    }

    /// Moves the free endpoint to column `x` of row `y`, keeping the anchor
    /// and storing the two endpoints in row-major order.
    pub fn extend_to(&mut self, x: usize, y: usize)
        ensures
            final(self).old_x == old(self).old_x,
            final(self).old_y == old(self).old_y,
            before(old(self).old_x as int, old(self).old_y as int, x as int, y as int) ==> (
            final(self).x1 == old(self).old_x && final(self).y1 == old(self).old_y
                && final(self).x2 == x && final(self).y2 == y),
            !before(old(self).old_x as int, old(self).old_y as int, x as int, y as int) ==> (
            final(self).x1 == x && final(self).y1 == y && final(self).x2 == old(self).old_x
                && final(self).y2 == old(self).old_y),
    {
        if self.old_y < y || (self.old_y == y && self.old_x < x) {
            self.x1 = self.old_x;
            self.y1 = self.old_y;
            self.x2 = x;
            self.y2 = y;
        } else {
            self.x1 = x;
            self.y1 = y;
            self.x2 = self.old_x;
            self.y2 = self.old_y;
        }
    }

    /// The selected text; rows are separated by a newline.
    pub fn get_selected_text(&self, text: &Text) -> (r: String)
        requires
            self.wf(text.lines()),
        ensures
            bytes_of(r@) == selected_spec(
                text.lines(),
                self.x1 as int,
                self.y1 as int,
                self.x2 as int,
                self.y2 as int,
            ),
    {
        let ghost lines = text.lines();
        assert(lines.len() == text.raw@.len());
        if self.y1 == self.y2 {
            return substring(text.raw[self.y1].as_str(), self.x1, self.x2);
        }
        let first = text.raw[self.y1].as_str();
        let n = byte_len(first);
        let mut r = substring(first, self.x1, n);
        let ghost pieces = selection_pieces(
            lines,
            self.x1 as int,
            self.y1 as int,
            self.x2 as int,
            self.y2 as int,
        );
        proof {
            assert(pieces.take(1) =~= seq![pieces[0]]);
        }
        let mut i = self.y1 + 1;
        while i < self.y2
            invariant
                lines == text.lines(),
                lines.len() == text.raw@.len(),
                self.wf(lines),
                pieces == selection_pieces(
                    lines,
                    self.x1 as int,
                    self.y1 as int,
                    self.x2 as int,
                    self.y2 as int,
                ),
                self.y1 < i <= self.y2,
                bytes_of(r@) == join_lines(pieces.take(i - self.y1)),
            decreases self.y2 - i,
        {
            let nl = newline();
            push_bytes(&mut r, nl.as_str());
            push_bytes(&mut r, text.raw[i].as_str());
            proof {
                let k = i - self.y1;
                assert(pieces.take(k + 1).drop_last() =~= pieces.take(k));
                assert(pieces[k] == lines[i as int]);
            }
            i = i + 1;
        }
        let nl = newline();
        push_bytes(&mut r, nl.as_str());
        let last = substring(text.raw[self.y2].as_str(), 0, self.x2);
        push_bytes(&mut r, last.as_str());
        proof {
            let k = self.y2 - self.y1;
            assert(pieces.take(k + 1).drop_last() =~= pieces.take(k));
            assert(pieces.take(k + 1) =~= pieces);
        }
        r
    }

    /// Collapses both endpoints to the origin.
    pub fn reset_selection(&mut self)
        ensures
            final(self).x1 == 0 && final(self).y1 == 0 && final(self).x2 == 0 && final(self).y2
                == 0,
            final(self).old_x == old(self).old_x,
            final(self).old_y == old(self).old_y,
    {
        self.x1 = 0;
        self.y1 = 0;
        self.x2 = 0;
        self.y2 = 0;
    }
}

} // verus!
