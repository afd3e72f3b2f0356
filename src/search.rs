//! Incremental search: every occurrence of a query in the document, and a
//! cyclic walk over them.
use vstd::prelude::*;

use crate::bytes::{bytes_of, lines_view};

verus! {

pub struct SearchHandler {
    pub active: bool,
    pub search_string: String,
    /// Index of the match that `next_string_pos` returns next.
    pub cur_index: usize,
    /// Match starts as (byte column, row), in row-major order.
    pub found_places: Vec<(usize, usize)>,
}

/// `pat` occurs in `h` at byte offset `i`.
pub open spec fn matches_at(h: Seq<u8>, pat: Seq<u8>, i: int) -> bool {
    0 <= i && i + pat.len() <= h.len() && h.subrange(i, i + pat.len()) == pat
}

/// Start offsets of the non-overlapping occurrences of `pat` in `h` at or
/// after `i`, found left to right; none for an empty `pat`.
pub open spec fn occurrences(h: Seq<u8>, pat: Seq<u8>, i: int) -> Seq<int>
    decreases h.len() - i,
{
    if pat.len() == 0 || i < 0 || i + pat.len() > h.len() {
        Seq::empty()
    } else if matches_at(h, pat, i) {
        seq![i] + occurrences(h, pat, i + pat.len())
    } else {
        occurrences(h, pat, i + 1)
    }
}

/// The matches of `pat` in the first `n` rows of `lines`, row by row.
pub open spec fn all_places(lines: Seq<Seq<u8>>, pat: Seq<u8>, n: int) -> Seq<(usize, usize)>
    decreases n,
{
    if n <= 0 {
        Seq::empty()
    } else {
        all_places(lines, pat, n - 1) + occurrences(lines[n - 1], pat, 0).map_values(
            |x: int| (x as usize, (n - 1) as usize),
        )
    }
}

/// The index after `i` in a cycle of length `n`.
pub open spec fn next_index(i: int, n: int) -> int {
    if i + 1 >= n {
        0
    } else {
        i + 1
    }
}

/// The index reached from `start` after `k` steps of `next_index`.
pub open spec fn index_after(start: int, k: nat, n: int) -> int
    decreases k,
{
    if k == 0 {
        start
    } else {
        next_index(index_after(start, (k - 1) as nat, n), n)
    }
}

/// Whether `pat` occurs in `h` at byte offset `i`.
fn match_at(h: &[u8], pat: &[u8], i: usize) -> (r: bool)
    requires
        i <= h@.len(),
        pat@.len() <= h@.len() - i,
    ensures
        r == matches_at(h@, pat@, i as int),
{
    let hl = h.len();
    let mut j: usize = 0;
    while j < pat.len()
        invariant
            hl == h@.len(),
            i + pat@.len() <= h@.len(),
            j <= pat@.len(),
            forall|q: int| 0 <= q < j ==> h@[i + q] == pat@[q],
        decreases pat@.len() - j,
    {
        if h[i + j] != pat[j] {
            assert(h@.subrange(i as int, i + pat@.len())[j as int] != pat@[j as int]);
            return false;
        }
        j = j + 1;
    }
    assert(h@.subrange(i as int, i + pat@.len()) =~= pat@);
    true
}

/// Start offsets of the non-overlapping occurrences of `pat` in `h`.
fn find_occurrences(h: &[u8], pat: &[u8]) -> (r: Vec<usize>)
    ensures
        r@.map_values(|x: usize| x as int) == occurrences(h@, pat@, 0),
{
    let mut r: Vec<usize> = Vec::new();
    if pat.len() == 0 {
        proof {
            assert(r@.map_values(|x: usize| x as int) =~= occurrences(h@, pat@, 0));
        }
        return r;
    }
    let mut i: usize = 0;
    while i <= h.len() && pat.len() <= h.len() - i
        invariant
            pat@.len() > 0,
            i <= h@.len() + pat@.len(),
            r@.map_values(|x: usize| x as int) + occurrences(h@, pat@, i as int) == occurrences(
                h@,
                pat@,
                0,
            ),
        decreases h@.len() + pat@.len() - i,
    {
        let ghost before = r@;
        if match_at(h, pat, i) {
            r.push(i);
            proof {
                assert(r@.map_values(|x: usize| x as int) =~= before.map_values(|x: usize| x as int)
                    + seq![i as int]);
                assert(seq![i as int] + occurrences(h@, pat@, i + pat@.len()) == occurrences(
                    h@,
                    pat@,
                    i as int,
                ));
                assert(before.map_values(|x: usize| x as int) + seq![i as int] + occurrences(
                    h@,
                    pat@,
                    i + pat@.len(),
                ) =~= before.map_values(|x: usize| x as int) + (seq![i as int] + occurrences(
                    h@,
                    pat@,
                    i + pat@.len(),
                )));
            }
            i = i + pat.len();
        } else {
            i = i + 1;
        }
    }
    proof {
        assert(occurrences(h@, pat@, i as int) == Seq::<int>::empty());
        assert(r@.map_values(|x: usize| x as int) + Seq::<int>::empty() =~= r@.map_values(
            |x: usize| x as int,
        ));
    }
    r
}

impl SearchHandler {
    /// The cursor into the matches points at one of them, if there are any.
    pub open spec fn wf(&self) -> bool {
        self.found_places@.len() == 0 || self.cur_index < self.found_places@.len()
    }

    /// Inactive, with an empty query and no matches.
    pub fn new() -> (r: SearchHandler)
        ensures
            !r.active,
            r.search_string@ == Seq::<char>::empty(),
            r.cur_index == 0,
            r.found_places@ == Seq::<(usize, usize)>::empty(),
    {
        SearchHandler {
            active: false,
            search_string: String::new(),
            cur_index: 0,
            found_places: Vec::new(),
        }
    }

    /// Recomputes the matches of the query in `text`: all non-overlapping
    /// occurrences, by row and then by column. An empty query matches
    /// nothing.
    pub fn find_search_string(&mut self, text: &Vec<String>)
        ensures
            final(self).found_places@ == all_places(
                lines_view(text@),
                bytes_of(old(self).search_string@),
                text@.len() as int,
            ),
            final(self).cur_index == 0,
            final(self).active == old(self).active,
            final(self).search_string == old(self).search_string,
            final(self).wf(),
    {
        self.found_places.clear();
        self.cur_index = 0;
        let pat = self.search_string.as_str().as_bytes();
        let ghost p = pat@;
        let ghost lines = lines_view(text@);
        let mut y: usize = 0;
        while y < text.len()
            invariant
                p == pat@,
                p == bytes_of(self.search_string@),
                lines == lines_view(text@),
                y <= text@.len(),
                self.cur_index == 0,
                self.search_string == old(self).search_string,
                self.active == old(self).active,
                self.found_places@ == all_places(lines, p, y as int),
            decreases text@.len() - y,
        {
            let xs = find_occurrences(text[y].as_str().as_bytes(), pat);
            let ghost before = self.found_places@;
            let ghost row = occurrences(lines[y as int], p, 0).map_values(
                |x: int| (x as usize, y as usize),
            );
            let mut k: usize = 0;
            while k < xs.len()
                invariant
                    k <= xs@.len(),
                    xs@.map_values(|x: usize| x as int) == occurrences(lines[y as int], p, 0),
                    row == occurrences(lines[y as int], p, 0).map_values(
                        |x: int| (x as usize, y as usize),
                    ),
                    self.found_places@ == before + row.take(k as int),
                    self.cur_index == 0,
                    self.search_string == old(self).search_string,
                    self.active == old(self).active,
                decreases xs@.len() - k,
            {
                self.found_places.push((xs[k], y));
                proof {
                    assert(xs@.map_values(|x: usize| x as int)[k as int] == xs@[k as int] as int);
                    assert(row[k as int] == (xs@[k as int], y));
                    assert(row.take(k + 1) =~= row.take(k as int).push(row[k as int]));
                }
                k = k + 1;
            }
            proof {
                assert(row.take(k as int) =~= row);
            }
            y = y + 1;
        }
    }

    /// The match at the cursor, which then moves on, wrapping to the first
    /// match after the last; `None` when there are no matches.
    pub fn next_string_pos(&mut self) -> (r: Option<(usize, usize)>)
        requires
            old(self).wf(),
        ensures
            final(self).wf(),
            final(self).found_places == old(self).found_places,
            final(self).search_string == old(self).search_string,
            final(self).active == old(self).active,
            old(self).found_places@.len() == 0 ==> r.is_none() && final(self).cur_index
                == old(self).cur_index,
            old(self).found_places@.len() > 0 ==> r == Some(
                old(self).found_places@[old(self).cur_index as int],
            ) && final(self).cur_index == next_index(
                old(self).cur_index as int,
                old(self).found_places@.len() as int,
            ),
    {
        if self.found_places.len() > 0 {
            let ret = self.found_places[self.cur_index];
            self.cur_index = self.cur_index + 1;
            if self.cur_index == self.found_places.len() {
                self.cur_index = 0;
            }
            return Some(ret);
        }
        None
    }
}

proof fn lemma_index_after_split(start: int, a: nat, b: nat, n: int)
    ensures
        index_after(start, a + b, n) == index_after(index_after(start, a, n), b, n),
    decreases b,
{
    if b > 0 {
        lemma_index_after_split(start, a, (b - 1) as nat, n);
        assert((a + b - 1) as nat == a + (b - 1) as nat);
    }
}

proof fn lemma_index_after_first_lap(k: nat, n: int)
    requires
        k <= n,
    ensures
        index_after(0, k, n) == if k == n { 0 } else { k as int },
    decreases k,
{
    if k > 0 {
        lemma_index_after_first_lap((k - 1) as nat, n);
    }
}

/// Starting from the first match, the `k`-th call of `next_string_pos`
/// (counting from zero) returns match `k` for every `k` below the number of
/// matches `n`, so `n` calls visit each match once and in order; after them
/// the cursor is back at the first match, and every later call repeats the
/// call made `n` calls before.
pub proof fn lemma_next_visits_each_once(n: int, k: nat)
    requires
        n > 0,
    ensures
        k < n ==> index_after(0, k, n) == k,
        index_after(0, n as nat, n) == 0,
        index_after(0, k + n as nat, n) == index_after(0, k, n),
{
    if k <= n {
        lemma_index_after_first_lap(k, n);
    }
    lemma_index_after_first_lap(n as nat, n);
    lemma_index_after_split(0, n as nat, k, n);
    assert(k + n as nat == n as nat + k);
}

} // verus!

verus! {

/// Match `a` comes before match `b` in row-major order.
pub open spec fn row_major_before(a: (usize, usize), b: (usize, usize)) -> bool {
    a.1 < b.1 || (a.1 == b.1 && a.0 < b.0)
}

proof fn lemma_occurrences_sorted(h: Seq<u8>, pat: Seq<u8>, i: int)
    requires
        0 <= i,
    ensures
        forall|k: int|
            #![trigger occurrences(h, pat, i)[k]]
            0 <= k < occurrences(h, pat, i).len() ==> i <= occurrences(h, pat, i)[k]
                && occurrences(h, pat, i)[k] < h.len(),
        forall|a: int, b: int|
            #![trigger occurrences(h, pat, i)[a], occurrences(h, pat, i)[b]]
            0 <= a < b < occurrences(h, pat, i).len() ==> occurrences(h, pat, i)[a] < occurrences(
                h,
                pat,
                i,
            )[b],
    decreases h.len() - i,
{
    if pat.len() == 0 || i + pat.len() > h.len() {
    } else if matches_at(h, pat, i) {
        lemma_occurrences_sorted(h, pat, i + pat.len());
        let rest = occurrences(h, pat, i + pat.len());
        let all = occurrences(h, pat, i);
        assert(all == seq![i] + rest);
        assert forall|k: int| #![trigger all[k]] 0 <= k < all.len() implies i <= all[k] && all[k]
            < h.len() by {
            if k > 0 {
                assert(all[k] == rest[k - 1]);
            }
        }
        assert forall|a: int, b: int| #![trigger all[a], all[b]] 0 <= a < b < all.len() implies all[a]
            < all[b] by {
            assert(all[b] == rest[b - 1]);
            if a > 0 {
                assert(all[a] == rest[a - 1]);
            }
        }
    } else {
        lemma_occurrences_sorted(h, pat, i + 1);
        assert(occurrences(h, pat, i) == occurrences(h, pat, i + 1));
    }
}

proof fn lemma_places_rows(lines: Seq<Seq<u8>>, pat: Seq<u8>, n: int)
    requires
        0 <= n <= lines.len() <= usize::MAX,
    ensures
        forall|k: int|
            #![trigger all_places(lines, pat, n)[k]]
            0 <= k < all_places(lines, pat, n).len() ==> all_places(lines, pat, n)[k].1 < n,
    decreases n,
{
    if n > 0 {
        lemma_places_rows(lines, pat, n - 1);
        let pre = all_places(lines, pat, n - 1);
        let row = occurrences(lines[n - 1], pat, 0).map_values(
            |x: int| (x as usize, (n - 1) as usize),
        );
        let all = all_places(lines, pat, n);
        assert forall|k: int| #![trigger all[k]] 0 <= k < all.len() implies all[k].1 < n by {
            if k < pre.len() {
                assert(all[k] == pre[k]);
            } else {
                assert(all[k] == row[k - pre.len()]);
            }
        }
    }
}

/// The matches that `find_search_string` records are in strict row-major
/// order, so walking them with `next_string_pos` goes through the document
/// from top to bottom and left to right.
pub proof fn lemma_places_row_major(lines: Seq<Seq<u8>>, pat: Seq<u8>, n: int)
    requires
        0 <= n <= lines.len() <= usize::MAX,
        forall|i: int| #![trigger lines[i]] 0 <= i < lines.len() ==> lines[i].len() <= usize::MAX,
    ensures
        forall|a: int, b: int|
            #![trigger all_places(lines, pat, n)[a], all_places(lines, pat, n)[b]]
            0 <= a < b < all_places(lines, pat, n).len() ==> row_major_before(
                all_places(lines, pat, n)[a],
                all_places(lines, pat, n)[b],
            ),
    decreases n,
{
    if n > 0 {
        lemma_places_row_major(lines, pat, n - 1);
        lemma_places_rows(lines, pat, n - 1);
        let h = lines[n - 1];
        lemma_occurrences_sorted(h, pat, 0);
        let occ = occurrences(h, pat, 0);
        let pre = all_places(lines, pat, n - 1);
        let row = occ.map_values(|x: int| (x as usize, (n - 1) as usize));
        let all = all_places(lines, pat, n);
        assert(all == pre + row);
        assert forall|a: int, b: int|
            #![trigger all[a], all[b]]
            0 <= a < b < all.len() implies row_major_before(all[a], all[b]) by {
            if b < pre.len() {
                assert(all[a] == pre[a] && all[b] == pre[b]);
            } else if a < pre.len() {
                assert(all[a] == pre[a]);
                assert(all[b] == row[b - pre.len()]);
            } else {
                assert(all[a] == row[a - pre.len()]);
                assert(all[b] == row[b - pre.len()]);
                assert(occ[a - pre.len()] < occ[b - pre.len()]);
                assert(occ[b - pre.len()] < h.len());
            }
        }
    }
}

} // verus!
