//! The cursor: a byte column, a row inside the viewport, the column that
//! vertical motion tries to keep, and the first buffer row on screen.
use vstd::prelude::*;

use crate::bindings::{grapheme_lengths, grapheme_lens};
use crate::bytes::{boundary, byte_len, bytes_of, lines_view, prefix_sum};

verus! {

#[derive(Clone, Copy, Debug)]
pub struct Cursor {
    /// Byte offset in the current line.
    pub x: usize,
    /// Row inside the viewport.
    pub y: usize,
    /// Column that vertical motion returns to.
    pub wanted_x: usize,
    /// Pixel width of the line-number gutter.
    pub number_w: u32,
    pub screen_x: usize,
    /// First buffer row shown in the viewport.
    pub screen_y: usize,
}

/// The greatest character boundary of `line` at or before `i`.
pub open spec fn floor_boundary(line: Seq<u8>, i: int) -> int
    decreases i,
{
    if i <= 0 {
        0
    } else if boundary(line, i) {
        i
    } else {
        floor_boundary(line, i - 1)
    }
}

/// The least character boundary of `line` at or after `i`, or its end.
pub open spec fn ceil_boundary(line: Seq<u8>, i: int) -> int
    decreases line.len() - i,
{
    if i >= line.len() {
        line.len() as int
    } else if boundary(line, i) {
        i
    } else {
        ceil_boundary(line, i + 1)
    }
}

/// The greatest boundary at or before `i` is indeed at or before `i`.
pub proof fn lemma_floor_le(line: Seq<u8>, i: int)
    requires
        i >= 0,
    ensures
        0 <= floor_boundary(line, i) <= i,
    decreases i,
{
    if i > 0 && !boundary(line, i) {
        lemma_floor_le(line, i - 1);
    }
}

/// Stepping down to a boundary never passes a boundary `b` below `i`.
pub proof fn lemma_floor_ge(line: Seq<u8>, b: int, i: int)
    requires
        0 <= b <= i,
        boundary(line, b),
    ensures
        b <= floor_boundary(line, i),
    decreases i,
{
    if i > b && !boundary(line, i) {
        lemma_floor_ge(line, b, i - 1);
    }
}

/// Stepping up to a boundary never passes a boundary `b` above `i`.
pub proof fn lemma_ceil_le(line: Seq<u8>, b: int, i: int)
    requires
        i <= b <= line.len(),
        boundary(line, b),
    ensures
        ceil_boundary(line, i) <= b,
    decreases line.len() - i,
{
    if i < b && !boundary(line, i) {
        lemma_ceil_le(line, b, i + 1);
    }
}

/// Column `wanted` brought inside `line`, onto a character boundary.
pub open spec fn clamp_col(line: Seq<u8>, wanted: int) -> int {
    floor_boundary(line, if wanted < line.len() { wanted } else { line.len() as int })
}

/// `c` on viewport row `y` with the view starting at `screen_y`, its
/// column brought back to `wanted_x` as far as that line allows.
pub open spec fn placed(c: Cursor, lines: Seq<Seq<u8>>, y: int, screen_y: int) -> Cursor {
    Cursor {
        y: y as usize,
        screen_y: screen_y as usize,
        x: clamp_col(lines[y + screen_y], c.wanted_x as int) as usize,
        ..c
    }
}

/// One row up. At the top of the viewport the view scrolls up by a row;
/// with fewer than two usable rows it scrolls all the way to the top.
pub open spec fn up_spec(c: Cursor, lines: Seq<Seq<u8>>, rows: int) -> Cursor {
    if c.y > 0 {
        placed(c, lines, c.y - 1, c.screen_y as int)
    } else if c.screen_y > 0 {
        placed(c, lines, 0, if rows >= 2 { c.screen_y - 1 } else { 0 })
    } else {
        c
    }
}

/// One row down. At the bottom of the viewport (its last usable row is
/// `rows - 1`) the view scrolls so that the cursor sits on that last row;
/// with fewer than two usable rows it scrolls to the last line.
pub open spec fn down_spec(c: Cursor, lines: Seq<Seq<u8>>, rows: int) -> Cursor {
    let a = c.y + c.screen_y;
    let last = lines.len() - 1;
    if a < last && c.y + 1 < rows {
        placed(c, lines, c.y + 1, c.screen_y as int)
    } else if a < last {
        if rows >= 2 {
            placed(c, lines, rows - 1, a + 1 - (rows - 1))
        } else {
            placed(c, lines, 0, last)
        }
    } else {
        c
    }
}

/// The view moves one row: up for `dir > 0`, down for `dir < 0`. The cursor
/// keeps its buffer row while that row stays inside the viewport, else it
/// moves with the view.
pub open spec fn scroll_spec(c: Cursor, lines: Seq<Seq<u8>>, rows: int, dir: int) -> Cursor {
    let last = lines.len() - 1;
    if dir > 0 && c.screen_y > 0 {
        if c.y + 1 < rows {
            placed(c, lines, c.y + 1, c.screen_y - 1)
        } else {
            placed(c, lines, c.y as int, c.screen_y - 1)
        }
    } else if dir < 0 && c.screen_y < last {
        if c.y > 0 {
            placed(c, lines, c.y - 1, c.screen_y + 1)
        } else {
            placed(c, lines, 0, c.screen_y + 1)
        }
    } else {
        c
    }
}

/// The sum of the first `k` widths.
pub open spec fn width_sum(widths: Seq<u32>, k: int) -> int
    decreases k,
{
    if k <= 0 || widths.len() == 0 {
        0
    } else if k > widths.len() {
        width_sum(widths, widths.len() as int)
    } else {
        width_sum(widths, k - 1) + widths[k - 1]
    }
}

/// How many of the first `n` clusters lie left of a click `dx` pixels into
/// the text: the first `k` from `from` on whose preceding clusters leave
/// less than `half` pixels, else `n`.
pub open spec fn hit_count(dx: int, half: int, widths: Seq<u32>, n: int, from: int) -> int
    decreases n - from,
{
    if from >= n {
        n
    } else if dx - width_sum(widths, from) < half {
        from
    } else {
        hit_count(dx, half, widths, n, from + 1)
    }
}

impl Cursor {
    /// Absolute buffer row of the cursor.
    pub open spec fn row(&self) -> int {
        self.y + self.screen_y
    }

    /// The cursor addresses a character boundary of an existing line.
    pub open spec fn wf(&self, lines: Seq<Seq<u8>>) -> bool {
        &&& lines.len() >= 1
        &&& self.row() < lines.len()
        &&& self.x <= lines[self.row()].len()
        &&& boundary(lines[self.row()], self.x as int)
    }

    /// A cursor at column `x` of viewport row `y`, with the view at the top.
    pub fn new(x: usize, y: usize) -> (r: Cursor)
        ensures
            r == (Cursor { x, y, wanted_x: x, number_w: 0, screen_x: 0, screen_y: 0 }),
    {
        Cursor { x, y, wanted_x: x, number_w: 0, screen_x: 0, screen_y: 0 }
    }

    /// The cursor's absolute buffer row.
    pub fn get_absolute_y(&self) -> (r: usize)
        requires
            self.y + self.screen_y <= usize::MAX,
        ensures
            r == self.row(),
    {
        self.y + self.screen_y
    }

    /// One character left, to the previous boundary; stays at column 0.
    pub fn left(&mut self, text: &Vec<String>)
        requires
            old(self).wf(lines_view(text@)),
        ensures
            final(self).wf(lines_view(text@)),
            old(self).x > 0 ==> *final(self) == (Cursor {
                x: floor_boundary(lines_view(text@)[old(self).row()], old(self).x - 1) as usize,
                wanted_x: floor_boundary(lines_view(text@)[old(self).row()], old(self).x - 1) as usize,
                ..*old(self)
            }),
            old(self).x == 0 ==> *final(self) == *old(self),
    {
        if self.x > 0 {
            let _n = text.len();
            assert(lines_view(text@).len() == text@.len());
            let line = text[self.y + self.screen_y].as_str().as_bytes();
            let ghost l = lines_view(text@)[self.row()];
            let mut x = self.x - 1;
            while x > 0 && 0x80 <= line[x] && line[x] <= 0xbf
                invariant
                    l == line@,
                    x < l.len(),
                    floor_boundary(l, x as int) == floor_boundary(l, old(self).x - 1),
                decreases x,
            {
                x = x - 1;
            }
            self.x = x;
            self.wanted_x = x;
        }
    }

    /// One character right, to the next boundary; stays at the line's end.
    pub fn right(&mut self, text: &Vec<String>)
        requires
            old(self).wf(lines_view(text@)),
        ensures
            final(self).wf(lines_view(text@)),
            old(self).x < lines_view(text@)[old(self).row()].len() ==> *final(self) == (Cursor {
                x: ceil_boundary(lines_view(text@)[old(self).row()], old(self).x + 1) as usize,
                wanted_x: ceil_boundary(lines_view(text@)[old(self).row()], old(self).x + 1) as usize,
                ..*old(self)
            }),
            old(self).x == lines_view(text@)[old(self).row()].len() ==> *final(self) == *old(self),
    {
        let _n = text.len();
        assert(lines_view(text@).len() == text@.len());
        let line = text[self.y + self.screen_y].as_str().as_bytes();
        if self.x < line.len() {
            let ghost l = lines_view(text@)[self.row()];
            let mut x = self.x + 1;
            while x < line.len() && 0x80 <= line[x] && line[x] <= 0xbf
                invariant
                    l == line@,
                    0 < x <= l.len(),
                    ceil_boundary(l, x as int) == ceil_boundary(l, old(self).x + 1),
                decreases l.len() - x,
            {
                x = x + 1;
            }
            self.x = x;
            self.wanted_x = x;
        }
    }
}

/// The viewport row a click `py` pixels from the top lands on, for rows of
/// `font_size` pixels: below the last line it is the last line's row.
pub open spec fn target_row_spec(py: int, font_size: int, screen_y: int, n_lines: int) -> int {
    let r = if py <= 0 { 0 } else { py / font_size };
    if r + screen_y < n_lines { r } else { n_lines - screen_y - 1 }
}

impl Cursor {
    /// Puts the cursor on viewport row `y` of a view starting at
    /// `screen_y`, with its column brought back to `wanted_x`.
    fn place(&mut self, text: &Vec<String>, y: usize, screen_y: usize)
        requires
            y + screen_y < text@.len(),
        ensures
            *final(self) == placed(*old(self), lines_view(text@), y as int, screen_y as int),
            final(self).wf(lines_view(text@)),
    {
        let _n = text.len();
        self.y = y;
        self.screen_y = screen_y;
        self.x = clamp_to(&text[y + screen_y], self.wanted_x);
    }

    /// One row up; see `up_spec`. `rows` is how many viewport rows the
    /// cursor may use.
    pub fn up(&mut self, text: &Vec<String>, rows: usize)
        requires
            old(self).wf(lines_view(text@)),
        ensures
            *final(self) == up_spec(*old(self), lines_view(text@), rows as int),
            final(self).wf(lines_view(text@)),
    {
        assert(lines_view(text@).len() == text@.len());
        if self.y > 0 {
            self.place(text, self.y - 1, self.screen_y);
        } else if self.screen_y > 0 {
            let s = if rows >= 2 {
                self.screen_y - 1
            } else {
                0
            };
            self.place(text, 0, s);
        }
    }

    /// One row down; see `down_spec`. `rows` is how many viewport rows the
    /// cursor may use.
    pub fn down(&mut self, text: &Vec<String>, rows: usize)
        requires
            old(self).wf(lines_view(text@)),
        ensures
            *final(self) == down_spec(*old(self), lines_view(text@), rows as int),
            final(self).wf(lines_view(text@)),
    {
        assert(lines_view(text@).len() == text@.len());
        let last = text.len() - 1;
        let a = self.y + self.screen_y;
        if a < last && self.y + 1 < rows {
            self.place(text, self.y + 1, self.screen_y);
        } else if a < last {
            if rows >= 2 {
                self.place(text, rows - 1, a + 1 - (rows - 1));
            } else {
                self.place(text, 0, last);
            }
        }
    }

    /// Scrolls the view by a row (up for `dir > 0`, down for `dir < 0`);
    /// see `scroll_spec`.
    pub fn scroll_screen(&mut self, text: &Vec<String>, dir: i32, rows: usize)
        requires
            old(self).wf(lines_view(text@)),
        ensures
            *final(self) == scroll_spec(*old(self), lines_view(text@), rows as int, dir as int),
            final(self).wf(lines_view(text@)),
    {
        assert(lines_view(text@).len() == text@.len());
        let last = text.len() - 1;
        if dir > 0 && self.screen_y > 0 {
            if self.y + 1 < rows {
                self.place(text, self.y + 1, self.screen_y - 1);
            } else {
                self.place(text, self.y, self.screen_y - 1);
            }
        } else if dir < 0 && self.screen_y < last {
            if self.y > 0 {
                self.place(text, self.y - 1, self.screen_y + 1);
            } else {
                self.place(text, 0, self.screen_y + 1);
            }
        }
    }

    /// The viewport row that a click `py` pixels from the top lands on.
    pub fn target_row(&self, py: i32, font_size: u32, n_lines: usize) -> (r: usize)
        requires
            font_size > 0,
            self.screen_y < n_lines,
        ensures
            r == target_row_spec(py as int, font_size as int, self.screen_y as int, n_lines as int),
    {
        let r: usize = if py <= 0 {
            0
        } else {
            ((py as u32) / font_size) as usize
        };
        if r < n_lines - self.screen_y {
            r
        } else {
            n_lines - self.screen_y - 1
        }
    }

    /// Places the cursor where a click at pixel (`px`, `py`) lands, given the
    /// pixel width of each character cluster of the row it lands on. The
    /// column is the boundary before the first cluster that starts less than
    /// half a character (`font_size / 2`) left of the click.
    pub fn move_to(&mut self, px: i32, py: i32, font_size: u32, text: &Vec<String>, widths: &Vec<u32>)
        requires
            old(self).wf(lines_view(text@)),
            font_size > 0,
        ensures
            final(self).y == target_row_spec(
                py as int,
                font_size as int,
                old(self).screen_y as int,
                text@.len() as int,
            ),
            final(self).screen_y == old(self).screen_y,
            final(self).screen_x == old(self).screen_x,
            final(self).number_w == old(self).number_w,
            final(self).wanted_x == final(self).x,
            final(self).wf(lines_view(text@)),
            ({
                let clusters = grapheme_lens(text@[final(self).row()]@);
                final(self).x == prefix_sum(
                    clusters,
                    hit_count(
                        px as int - old(self).number_w as int,
                        (font_size / 2) as int,
                        widths@,
                        if clusters.len() < widths@.len() {
                            clusters.len() as int
                        } else {
                            widths@.len() as int
                        },
                        0,
                    ),
                )
            }),
    {
        assert(lines_view(text@).len() == text@.len());
        let y = self.target_row(py, font_size, text.len());
        self.y = y;
        let line = text[y + self.screen_y].as_str();
        let clusters = grapheme_lengths(line);
        // The clusters add up to the line's length, which fits in a usize.
        let _n = byte_len(line);
        let x = hit_offset(
            px as i64 - self.number_w as i64,
            (font_size / 2) as i64,
            &clusters,
            widths,
        );
        proof {
            let n = if clusters@.len() < widths@.len() {
                clusters@.len() as int
            } else {
                widths@.len() as int
            };
            let k = hit_count(px as int - self.number_w as int, (font_size / 2) as int, widths@, n, 0);
            lemma_hit_count_range(px as int - self.number_w as int, (font_size / 2) as int, widths@, n, 0);
            assert(boundary(bytes_of(line@), prefix_sum(clusters@, k)));
            lemma_prefix_sum_bound(clusters@, k);
        }
        self.x = x;
        self.wanted_x = x;
        proof {
            assert(lines_view(text@)[self.row()] == bytes_of(line@));
        }
    }
}

proof fn lemma_hit_count_range(dx: int, half: int, widths: Seq<u32>, n: int, from: int)
    requires
        0 <= from <= n,
    ensures
        from <= hit_count(dx, half, widths, n, from) <= n,
    decreases n - from,
{
    if from < n {
        lemma_hit_count_range(dx, half, widths, n, from + 1);
    }
}

proof fn lemma_prefix_sum_bound(lens: Seq<usize>, k: int)
    requires
        0 <= k <= lens.len(),
    ensures
        0 <= prefix_sum(lens, k) <= prefix_sum(lens, lens.len() as int),
    decreases lens.len() - k,
{
    if k < lens.len() {
        lemma_prefix_sum_bound(lens, k + 1);
    }
    if k > 0 {
        lemma_prefix_sum_nonneg(lens, k);
    }
}

proof fn lemma_prefix_sum_nonneg(lens: Seq<usize>, k: int)
    requires
        0 <= k <= lens.len(),
    ensures
        0 <= prefix_sum(lens, k),
    decreases k,
{
    if k > 0 {
        lemma_prefix_sum_nonneg(lens, k - 1);
    }
}

/// The byte offset reached by walking clusters (byte lengths `clusters`,
/// pixel widths `widths`) from the left edge towards a click `dx` pixels in,
/// stopping at the first cluster that starts less than `half` pixels before
/// the click.
pub fn hit_offset(dx: i64, half: i64, clusters: &Vec<usize>, widths: &Vec<u32>) -> (r: usize)
    requires
        half >= 0,
        prefix_sum(clusters@, clusters@.len() as int) <= usize::MAX,
    ensures
        r == prefix_sum(
            clusters@,
            hit_count(
                dx as int,
                half as int,
                widths@,
                if clusters@.len() < widths@.len() {
                    clusters@.len() as int
                } else {
                    widths@.len() as int
                },
                0,
            ),
        ),
{
    let n = if clusters.len() < widths.len() {
        clusters.len()
    } else {
        widths.len()
    };
    let mut k: usize = 0;
    let mut rem: i64 = dx;
    let mut len: usize = 0;
    while k < n && rem >= half
        invariant
            n <= clusters@.len(),
            n <= widths@.len(),
            n == if clusters@.len() < widths@.len() {
                clusters@.len() as int
            } else {
                widths@.len() as int
            },
            half >= 0,
            prefix_sum(clusters@, clusters@.len() as int) <= usize::MAX,
            k <= n,
            rem == dx - width_sum(widths@, k as int),
            len == prefix_sum(clusters@, k as int),
            hit_count(dx as int, half as int, widths@, n as int, 0) == hit_count(
                dx as int,
                half as int,
                widths@,
                n as int,
                k as int,
            ),
        decreases n - k,
    {
        proof {
            lemma_prefix_sum_bound(clusters@, k as int + 1);
        }
        rem = rem - widths[k] as i64;
        len = len + clusters[k];
        k = k + 1;
    }
    proof {
        if k < n {
            assert(hit_count(dx as int, half as int, widths@, n as int, k as int) == k as int);
        }
    }
    len
}

/// Column `wanted` brought inside `line` and onto a character boundary.
fn clamp_to(line: &String, wanted: usize) -> (r: usize)
    ensures
        r == clamp_col(bytes_of(line@), wanted as int),
        r <= bytes_of(line@).len(),
        boundary(bytes_of(line@), r as int),
{
    let b = line.as_str().as_bytes();
    let ghost l = bytes_of(line@);
    let mut x = if wanted < b.len() {
        wanted
    } else {
        b.len()
    };
    let ghost start = x as int;
    while x > 0 && x < b.len() && 0x80 <= b[x] && b[x] <= 0xbf
        invariant
            l == b@,
            x <= l.len(),
            floor_boundary(l, x as int) == floor_boundary(l, start),
        decreases x,
    {
        x = x - 1;
    }
    x
}

} // verus!

verus! {

/// Stepping up to a boundary skips only positions that are not boundaries.
pub proof fn lemma_ceil_skips(line: Seq<u8>, i: int)
    requires
        0 <= i <= line.len(),
    ensures
        i <= ceil_boundary(line, i) <= line.len(),
        forall|j: int| i <= j < ceil_boundary(line, i) ==> !boundary(line, j),
    decreases line.len() - i,
{
    if i < line.len() && !boundary(line, i) {
        lemma_ceil_skips(line, i + 1);
    }
}

proof fn lemma_floor_lands(line: Seq<u8>, x: int, i: int)
    requires
        0 <= x <= i,
        boundary(line, x),
        forall|j: int| x < j <= i ==> !boundary(line, j),
    ensures
        floor_boundary(line, i) == x,
    decreases i - x,
{
    if i > x {
        lemma_floor_lands(line, x, i - 1);
    }
}

/// Moving right from a boundary `x` before the end of a line and then left
/// again comes back to `x`.
pub proof fn lemma_right_then_left(line: Seq<u8>, x: int)
    requires
        0 <= x < line.len(),
        boundary(line, x),
    ensures
        x < ceil_boundary(line, x + 1),
        floor_boundary(line, ceil_boundary(line, x + 1) - 1) == x,
{
    lemma_ceil_skips(line, x + 1);
    lemma_floor_lands(line, x, ceil_boundary(line, x + 1) - 1);
}

} // verus!
