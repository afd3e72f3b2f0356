//! Small helpers shared by the editor.
use vstd::prelude::*;

use crate::autocomplete::{add_all, split_pattern, strings_view};
use crate::bindings::regex_split;
use crate::editor::Editor;
use crate::undo::{push_spec, snapshot_of};

verus! {

/// The number of decimal digits of `n`; zero has none.
pub open spec fn digits(n: nat) -> nat
    decreases n,
{
    if n == 0 {
        0
    } else {
        1 + digits(n / 10)
    }
}

/// The number of decimal digits of `n` (0 for 0).
pub fn number_of_digits(n: usize) -> (r: usize)
    ensures
        r == digits(n as nat),
{
    proof {
        lemma_digits_bound(n as nat);
    }
    let mut i: usize = 0;
    let mut m = n;
    while m != 0
        invariant
            i + digits(m as nat) == digits(n as nat),
            i <= 20 - digits(m as nat),
            digits(m as nat) <= 20,
        decreases m,
    {
        proof {
            lemma_digits_bound(m as nat);
        }
        m = m / 10;
        i = i + 1;
    }
    i
}

proof fn lemma_digits_bound(n: nat)
    requires
        n <= usize::MAX,
    ensures
        digits(n) <= 20,
{
    reveal_with_fuel(pow10, 21);
    assert(pow10(20) == 100000000000000000000);
    lemma_digits_le(n, 20);
}

proof fn lemma_digits_le(n: nat, d: nat)
    requires
        n < pow10(d),
    ensures
        digits(n) <= d,
    decreases d,
{
    if n > 0 {
        lemma_digits_le(n / 10, (d - 1) as nat);
    }
}

spec fn pow10(d: nat) -> nat
    decreases d,
{
    if d == 0 {
        1
    } else {
        10 * pow10((d - 1) as nat)
    }
}

/// `vocab` after adding the words of each of `lines` in turn.
pub open spec fn add_lines(vocab: Seq<Seq<char>>, lines: Seq<Seq<char>>) -> Seq<Seq<char>>
    decreases lines.len(),
{
    if lines.len() == 0 {
        vocab
    } else {
        add_all(add_lines(vocab, lines.drop_last()), regex_split(split_pattern(), lines.last()))
    }
}

/// Records an undo snapshot, adds the words of every line to the
/// completion vocabulary, and restarts the count of typed characters.
pub fn update_timer(editor: &mut Editor)
    requires
        old(editor).undo_handler.wf(),
        old(editor).completion_engine.wf(),
    ensures
        final(editor).undo_handler.wf(),
        final(editor).completion_engine.wf(),
        (final(editor).undo_handler.history(), final(editor).undo_handler.current()) == push_spec(
            old(editor).undo_handler.history(),
            old(editor).undo_handler.current(),
            snapshot_of(old(editor).cursor, old(editor).text.raw@),
        ),
        old(editor).completion_engine.vocabulary().is_prefix_of(
            final(editor).completion_engine.vocabulary(),
        ),
        old(editor).completion_engine.spliting_regex.is_some()
            ==> final(editor).completion_engine.vocabulary() == add_lines(
            old(editor).completion_engine.vocabulary(),
            strings_view(old(editor).text.raw@),
        ),
        old(editor).completion_engine.spliting_regex.is_none()
            ==> final(editor).completion_engine.vocabulary() == old(
            editor,
        ).completion_engine.vocabulary(),
        final(editor).completion_engine.spliting_regex == old(editor).completion_engine.spliting_regex,
        final(editor).completion_engine.word_regex == old(editor).completion_engine.word_regex,
        final(editor).char_timer == 0,
        final(editor).text == old(editor).text,
        final(editor).cursor == old(editor).cursor,
        final(editor).search_handler == old(editor).search_handler,
        final(editor).selected == old(editor).selected,
        final(editor).completion_engine.list_mode == old(editor).completion_engine.list_mode,
{
    editor.undo_handler.create_state(&editor.cursor, &editor.text);
    let mut i: usize = 0;
    while i < editor.text.raw.len()
        invariant
            editor.completion_engine.wf(),
            old(editor).completion_engine.vocabulary().is_prefix_of(
                editor.completion_engine.vocabulary(),
            ),
            editor.text == old(editor).text,
            editor.cursor == old(editor).cursor,
            editor.search_handler == old(editor).search_handler,
            editor.selected == old(editor).selected,
            editor.completion_engine.list_mode == old(editor).completion_engine.list_mode,
            editor.undo_handler.wf(),
            (editor.undo_handler.history(), editor.undo_handler.current()) == push_spec(
                old(editor).undo_handler.history(),
                old(editor).undo_handler.current(),
                snapshot_of(old(editor).cursor, old(editor).text.raw@),
            ),
            i <= editor.text.raw@.len(),
            editor.completion_engine.spliting_regex == old(editor).completion_engine.spliting_regex,
            editor.completion_engine.word_regex == old(editor).completion_engine.word_regex,
            old(editor).completion_engine.spliting_regex.is_some()
                ==> editor.completion_engine.vocabulary() == add_lines(
                old(editor).completion_engine.vocabulary(),
                strings_view(editor.text.raw@).take(i as int),
            ),
            old(editor).completion_engine.spliting_regex.is_none()
                ==> editor.completion_engine.vocabulary() == old(
                editor,
            ).completion_engine.vocabulary(),
        decreases editor.text.raw@.len() - i,
    {
        let ghost before = editor.completion_engine.vocabulary();
        editor.completion_engine.update_cache(editor.text.raw[i].as_str());
        proof {
            let lv = strings_view(editor.text.raw@);
            assert(lv.take(i + 1).drop_last() =~= lv.take(i as int));
            assert(lv.take(i + 1).last() == editor.text.raw@[i as int]@);
            let v0 = old(editor).completion_engine.vocabulary();
            let v2 = editor.completion_engine.vocabulary();
            assert forall|q: int| 0 <= q < v0.len() implies v0[q] == v2[q] by {
                assert(v0[q] == before[q]);
            }
            assert(v0 =~= v2.subrange(0, v0.len() as int));
        }
        i = i + 1;
    }
    proof {
        let lv = strings_view(editor.text.raw@);
        assert(lv.take(lv.len() as int) =~= lv);
    }
    editor.char_timer = 0;
}

} // verus!
