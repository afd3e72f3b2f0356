//! Linear undo history of whole-document snapshots.
use vstd::prelude::*;

use crate::cursor::Cursor;
use crate::text::Text;

verus! {

/// A snapshot: the cursor's fields and every line of the document.
pub struct UndoState {
    pub cursor_x: usize,
    pub cursor_y: usize,
    pub cursor_wanted_x: usize,
    pub cursor_screen_y: usize,
    pub cursor_number_w: u32,
    pub text: Vec<String>,
}

/// What a snapshot holds: x, y, wanted_x, screen_y, number_w and the lines.
pub type Snapshot = (usize, usize, usize, usize, u32, Seq<String>);

impl View for UndoState {
    type V = Snapshot;

    open spec fn view(&self) -> Snapshot {
        (
            self.cursor_x,
            self.cursor_y,
            self.cursor_wanted_x,
            self.cursor_screen_y,
            self.cursor_number_w,
            self.text@,
        )
    }
}

/// The snapshot of `cursor` and `lines`.
pub open spec fn snapshot_of(cursor: Cursor, lines: Seq<String>) -> Snapshot {
    (cursor.x, cursor.y, cursor.wanted_x, cursor.screen_y, cursor.number_w, lines)
}

/// `cursor` and `lines` are exactly what snapshot `s` holds; the rest of
/// the cursor is `rest`'s.
pub open spec fn restored(cursor: Cursor, lines: Seq<String>, s: Snapshot, rest: Cursor) -> bool {
    &&& cursor == (Cursor {
        x: s.0,
        y: s.1,
        wanted_x: s.2,
        screen_y: s.3,
        number_w: s.4,
        ..rest
    })
    &&& lines == s.5
}

/// History and index after recording `s`: states after the index are
/// dropped first when the index is not past the end.
pub open spec fn push_spec(history: Seq<Snapshot>, cur: int, s: Snapshot) -> (Seq<Snapshot>, int) {
    if cur != history.len() {
        (history.take(cur + 1).push(s), cur + 1)
    } else {
        (history.push(s), cur + 1)
    }
}

/// The index after one undo.
pub open spec fn undo_index(cur: int) -> int {
    if cur > 0 {
        cur - 1
    } else {
        cur
    }
}

/// The index after one redo in a history of `len` states.
pub open spec fn redo_index(cur: int, len: int) -> int {
    if cur + 1 < len {
        cur + 1
    } else {
        cur
    }
}

/// History and index after recording each of `ss` in turn, from empty.
pub open spec fn pushes(ss: Seq<Snapshot>) -> (Seq<Snapshot>, int)
    decreases ss.len(),
{
    if ss.len() == 0 {
        (Seq::empty(), 0)
    } else {
        let (h, c) = pushes(ss.drop_last());
        push_spec(h, c, ss.last())
    }
}

/// The index after `k` undos.
pub open spec fn undo_times(cur: int, k: nat) -> int
    decreases k,
{
    if k == 0 {
        cur
    } else {
        undo_index(undo_times(cur, (k - 1) as nat))
    }
}

/// The index after `k` redos in a history of `len` states.
pub open spec fn redo_times(cur: int, len: int, k: nat) -> int
    decreases k,
{
    if k == 0 {
        cur
    } else {
        redo_index(redo_times(cur, len, (k - 1) as nat), len)
    }
}

pub struct UndoHandler {
    states: Vec<UndoState>,
    cur_state: usize,
}

impl UndoHandler {
    /// The recorded snapshots, oldest first.
    pub closed spec fn history(&self) -> Seq<Snapshot> {
        self.states@.map_values(|s: UndoState| s@)
    }

    /// The current index into the history; equal to its length right after
    /// a snapshot is recorded.
    pub closed spec fn current(&self) -> int {
        self.cur_state as int
    }

    /// The index never passes the end of the history.
    pub open spec fn wf(&self) -> bool {
        0 <= self.current() <= self.history().len()
    }

    /// An empty history.
    pub fn new() -> (r: UndoHandler)
        ensures
            r.wf(),
            r.history() == Seq::<Snapshot>::empty(),
            r.current() == 0,
    {
        let r = UndoHandler { states: Vec::new(), cur_state: 0 };
        proof {
            assert(r.history() =~= Seq::<Snapshot>::empty());
        }
        r
    }

    /// Records the cursor and the document.
    pub fn create_state(&mut self, cursor: &Cursor, text: &Text)
        requires
            old(self).wf(),
        ensures
            final(self).wf(),
            (final(self).history(), final(self).current()) == push_spec(
                old(self).history(),
                old(self).current(),
                snapshot_of(*cursor, text.raw@),
            ),
    {
        let new_state = UndoState {
            cursor_x: cursor.x,
            cursor_y: cursor.y,
            cursor_wanted_x: cursor.wanted_x,
            cursor_screen_y: cursor.screen_y,
            cursor_number_w: cursor.number_w,
            text: text.raw.clone(),
        };
        proof {
            assert(new_state.text@ =~= text.raw@);
        }
        let ghost h = self.history();
        if self.cur_state != self.states.len() {
            self.states.truncate(self.cur_state + 1);
        }
        self.states.push(new_state);
        let _len = self.states.len();
        self.cur_state = self.cur_state + 1;
        proof {
            if old(self).cur_state != h.len() {
                assert(self.history() =~= h.take(old(self).cur_state + 1).push(
                    snapshot_of(*cursor, text.raw@),
                ));
            } else {
                assert(self.history() =~= h.push(snapshot_of(*cursor, text.raw@)));
            }
        }
    }

    /// Forgets every snapshot.
    pub fn clear_states(&mut self)
        ensures
            final(self).wf(),
            final(self).history() == Seq::<Snapshot>::empty(),
            final(self).current() == 0,
    {
        self.cur_state = 0;
        self.states.clear();
        proof {
            assert(self.history() =~= Seq::<Snapshot>::empty());
        }
    }

    fn restore(&self, cursor: &mut Cursor, text: &mut Text)
        requires
            self.cur_state < self.states@.len(),
        ensures
            restored(
                *final(cursor),
                final(text).raw@,
                self.history()[self.current()],
                *old(cursor),
            ),
            final(text).file_path == old(text).file_path,
            final(text).needs_update == old(text).needs_update,
    {
        let state = &self.states[self.cur_state];
        cursor.x = state.cursor_x;
        cursor.y = state.cursor_y;
        cursor.wanted_x = state.cursor_wanted_x;
        cursor.screen_y = state.cursor_screen_y;
        cursor.number_w = state.cursor_number_w;
        text.raw = state.text.clone();
        proof {
            assert(text.raw@ =~= state.text@);
        }
    }

    /// Steps back one snapshot and restores it; nothing at the start of the
    /// history.
    pub fn restore_previous_state(&mut self, cursor: &mut Cursor, text: &mut Text)
        requires
            old(self).wf(),
        ensures
            final(self).wf(),
            final(self).history() == old(self).history(),
            final(self).current() == undo_index(old(self).current()),
            old(self).current() > 0 ==> restored(
                *final(cursor),
                final(text).raw@,
                old(self).history()[final(self).current()],
                *old(cursor),
            ),
            old(self).current() == 0 ==> *final(cursor) == *old(cursor) && final(text).raw
                == old(text).raw,
            final(text).file_path == old(text).file_path,
            final(text).needs_update == old(text).needs_update,
    {
        if self.cur_state > 0 {
            self.cur_state = self.cur_state - 1;
            self.restore(cursor, text);
        }
    }

    /// Steps forward one snapshot and restores it; nothing at the last one.
    pub fn restore_next_state(&mut self, cursor: &mut Cursor, text: &mut Text)
        requires
            old(self).wf(),
        ensures
            final(self).wf(),
            final(self).history() == old(self).history(),
            final(self).current() == redo_index(
                old(self).current(),
                old(self).history().len() as int,
            ),
            old(self).current() + 1 < old(self).history().len() ==> restored(
                *final(cursor),
                final(text).raw@,
                old(self).history()[final(self).current()],
                *old(cursor),
            ),
            old(self).current() + 1 >= old(self).history().len() ==> *final(cursor)
                == *old(cursor) && final(text).raw == old(text).raw,
            final(text).file_path == old(text).file_path,
            final(text).needs_update == old(text).needs_update,
    {
        let len = self.states.len();
        if len > 0 && self.cur_state < len - 1 {
            self.cur_state = self.cur_state + 1;
            self.restore(cursor, text);
        }
    }
}

proof fn lemma_pushes(ss: Seq<Snapshot>)
    ensures
        pushes(ss) == (ss, ss.len() as int),
    decreases ss.len(),
{
    if ss.len() > 0 {
        lemma_pushes(ss.drop_last());
        assert(ss.drop_last().push(ss.last()) =~= ss);
    }
}

proof fn lemma_undo_times(cur: int, k: nat)
    requires
        0 <= k <= cur,
    ensures
        undo_times(cur, k) == cur - k,
    decreases k,
{
    if k > 0 {
        lemma_undo_times(cur, (k - 1) as nat);
    }
}

proof fn lemma_redo_times(len: int, k: nat)
    requires
        len > 0,
    ensures
        redo_times(0, len, k) == if k < len { k as int } else { len - 1 },
    decreases k,
{
    if k > 0 {
        lemma_redo_times(len, (k - 1) as nat);
    }
}

/// After recording snapshots `ss` into an empty history, as many undos
/// bring the index to the first snapshot, and as many redos then bring it
/// to the last one, which the last effective redo restores: the state after
/// the final recording, exactly.
pub proof fn lemma_undo_then_redo_restores(ss: Seq<Snapshot>)
    requires
        ss.len() > 0,
    ensures
        ({
            let (h, c) = pushes(ss);
            let n = ss.len();
            &&& h == ss
            &&& c == n
            &&& undo_times(c, n) == 0
            &&& redo_times(0, n as int, n) == n - 1
            &&& h[redo_times(0, n as int, n)] == ss.last()
        }),
{
    lemma_pushes(ss);
    lemma_undo_times(ss.len() as int, ss.len());
    lemma_redo_times(ss.len() as int, ss.len());
}

/// Recording a snapshot after an undo drops every snapshot after the
/// current one, and a redo right after it changes nothing.
pub proof fn lemma_push_after_undo_drops_redo(history: Seq<Snapshot>, cur: int, s: Snapshot)
    requires
        0 <= cur < history.len(),
    ensures
        ({
            let (h, c) = push_spec(history, cur, s);
            &&& h == history.take(cur + 1).push(s)
            &&& redo_index(c, h.len() as int) == c
        }),
{
}

} // verus!
