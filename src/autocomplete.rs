//! Word completion: a vocabulary gathered from the document, and the words
//! in it that extend the word under the cursor.
use vstd::prelude::*;

use crate::bindings::{
    find_spans, regex_accepts, regex_spans, regex_split, spans_wf, split_pieces, Pattern,
};
use crate::bytes::{bytes_of, lines_view, substring};
use crate::cursor::Cursor;

verus! {

pub struct CompletionEngine {
    /// Whether the list of candidates is being shown.
    pub list_mode: bool,
    /// The highlighted candidate.
    pub selected_word: usize,
    /// The word under the cursor at the last completion.
    pub cur_word: String,
    /// The candidates found by the last completion.
    pub completion_list: Vec<String>,
    /// The known words, in the order they were first seen.
    pub word_cache: Vec<String>,
    /// Splits text on runs of non-word characters.
    pub spliting_regex: Option<Pattern>,
    /// Finds runs of word characters.
    pub word_regex: Option<Pattern>,
}

/// The pattern that splits text into words: runs of non-word characters.
pub open spec fn split_pattern() -> Seq<char> {
    r"\W+"@
}

/// The pattern of a word: a run of word characters.
pub open spec fn word_pattern() -> Seq<char> {
    r"\w+"@
}

/// A word is kept when it is at least two bytes long.
pub open spec fn keeps(w: Seq<char>) -> bool {
    bytes_of(w).len() >= 2
}

/// `vocab` after offering it each of `words` in turn: a word joins at the
/// end when it is kept and not already there.
pub open spec fn add_all(vocab: Seq<Seq<char>>, words: Seq<Seq<char>>) -> Seq<Seq<char>>
    decreases words.len(),
{
    if words.len() == 0 {
        vocab
    } else {
        let before = add_all(vocab, words.drop_last());
        let w = words.last();
        if keeps(w) && !before.contains(w) {
            before.push(w)
        } else {
            before
        }
    }
}

/// Offering words never drops or reorders the words already known.
pub proof fn lemma_add_all_extends(v: Seq<Seq<char>>, ws: Seq<Seq<char>>)
    ensures
        v.is_prefix_of(add_all(v, ws)),
    decreases ws.len(),
{
    if ws.len() > 0 {
        lemma_add_all_extends(v, ws.drop_last());
    }
}

/// The index of the first span that contains offset `x` (its ends
/// included), or the number of spans when none does.
pub open spec fn first_containing(spans: Seq<(usize, usize)>, x: int, from: int) -> int
    decreases spans.len() - from,
{
    if from < 0 || from >= spans.len() {
        spans.len() as int
    } else if spans[from].0 <= x <= spans[from].1 {
        from
    } else {
        first_containing(spans, x, from + 1)
    }
}

/// The words of `vocab` that start with `word`, byte for byte, in order.
pub open spec fn candidates(vocab: Seq<Seq<char>>, word: Seq<char>) -> Seq<Seq<char>> {
    vocab.filter(|w: Seq<char>| bytes_of(word).is_prefix_of(bytes_of(w)))
}

/// The characters of each string.
pub open spec fn strings_view(v: Seq<String>) -> Seq<Seq<char>> {
    v.map_values(|s: String| s@)
}

/// The outcome of completing at column `x` of `line`, whose word runs are
/// `spans`, with vocabulary `vocab`: the current word `cur` is the first run
/// that contains `x` (its ends included) and `list` holds the known words
/// that start with it; with no such run both are empty.
pub open spec fn completed(
    vocab: Seq<Seq<char>>,
    line: Seq<u8>,
    spans: Seq<(usize, usize)>,
    x: int,
    cur: Seq<char>,
    list: Seq<Seq<char>>,
) -> bool {
    let k = first_containing(spans, x, 0);
    if k < spans.len() {
        &&& bytes_of(cur) == line.subrange(spans[k].0 as int, spans[k].1 as int)
        &&& list == candidates(vocab, cur)
    } else {
        &&& cur == Seq::<char>::empty()
        &&& list == Seq::<Seq<char>>::empty()
    }
}

/// Whether `w` starts with `p`, byte for byte.
fn starts_with(w: &str, p: &str) -> (r: bool)
    ensures
        r == bytes_of(p@).is_prefix_of(bytes_of(w@)),
{
    let wb = w.as_bytes();
    let pb = p.as_bytes();
    if pb.len() > wb.len() {
        return false;
    }
    let mut i: usize = 0;
    while i < pb.len()
        invariant
            pb@ == bytes_of(p@),
            wb@ == bytes_of(w@),
            pb@.len() <= wb@.len(),
            i <= pb@.len(),
            forall|q: int| 0 <= q < i ==> wb@[q] == pb@[q],
        decreases pb@.len() - i,
    {
        if wb[i] != pb[i] {
            assert(wb@.subrange(0, pb@.len() as int)[i as int] != pb@[i as int]);
            assert(pb@ != wb@.subrange(0, pb@.len() as int));
            return false;
        }
        i = i + 1;
    }
    assert(pb@ =~= wb@.subrange(0, pb@.len() as int));
    true
}

impl CompletionEngine {
    /// The known words, in the order they were first seen.
    pub open spec fn vocabulary(&self) -> Seq<Seq<char>> {
        strings_view(self.word_cache@)
    }

    /// No word twice, every word kept, and each regex compiled from its
    /// pattern.
    pub open spec fn wf(&self) -> bool {
        &&& self.spliting_regex matches Some(p) ==> p.source() == split_pattern()
        &&& self.word_regex matches Some(p) ==> p.source() == word_pattern()
        &&& self.vocabulary().no_duplicates()
        &&& forall|i: int|
            #![trigger self.vocabulary()[i]]
            0 <= i < self.vocabulary().len() ==> keeps(self.vocabulary()[i])
    }

    /// An engine with no words, splitting text on runs of non-word
    /// characters.
    pub fn new() -> (r: CompletionEngine)
        ensures
            r.wf(),
            r.vocabulary() == Seq::<Seq<char>>::empty(),
            !r.list_mode,
            r.selected_word == 0,
            r.cur_word@ == Seq::<char>::empty(),
            r.completion_list@ == Seq::<String>::empty(),
            r.spliting_regex.is_some() == regex_accepts(split_pattern()),
            r.word_regex.is_some() == regex_accepts(word_pattern()),
    {
        let reg1 = Pattern::new(r"\W+").ok();
        let reg2 = Pattern::new(r"\w+").ok();
        let r = CompletionEngine {
            cur_word: String::new(),
            selected_word: 0,
            completion_list: Vec::new(),
            word_cache: Vec::new(),
            list_mode: false,
            spliting_regex: reg1,
            word_regex: reg2,
        };
        proof {
            assert(r.vocabulary() =~= Seq::<Seq<char>>::empty());
        }
        r
    }

    /// Adds each of `words` that is at least two bytes long and not yet
    /// known.
    pub fn add_words(&mut self, words: &Vec<String>)
        requires
            old(self).wf(),
        ensures
            final(self).wf(),
            final(self).vocabulary() == add_all(old(self).vocabulary(), strings_view(words@)),
            final(self).spliting_regex == old(self).spliting_regex && final(self).word_regex == old(self).word_regex,
            final(self).list_mode == old(self).list_mode,
            final(self).selected_word == old(self).selected_word,
            final(self).cur_word == old(self).cur_word,
            final(self).completion_list == old(self).completion_list,
    {
        let ghost ws = strings_view(words@);
        let mut i: usize = 0;
        while i < words.len()
            invariant
                ws == strings_view(words@),
                i <= words@.len(),
                self.wf(),
                self.vocabulary() == add_all(old(self).vocabulary(), ws.take(i as int)),
                self.spliting_regex == old(self).spliting_regex && self.word_regex == old(self).word_regex,
                self.list_mode == old(self).list_mode,
                self.selected_word == old(self).selected_word,
                self.cur_word == old(self).cur_word,
                self.completion_list == old(self).completion_list,
            decreases words@.len() - i,
        {
            let w = &words[i];
            let ghost before = self.vocabulary();
            proof {
                assert(ws.take(i + 1).drop_last() =~= ws.take(i as int));
                assert(ws.take(i + 1).last() == w@);
            }
            if w.as_str().as_bytes().len() >= 2 {
                let mut found = false;
                let mut j: usize = 0;
                while j < self.word_cache.len()
                    invariant
                        before == self.vocabulary(),
                        j <= self.word_cache@.len(),
                        found == exists|q: int| 0 <= q < j && before[q] == w@,
                    decreases self.word_cache@.len() - j,
                {
                    assert(before[j as int] == self.word_cache@[j as int]@);
                    if self.word_cache[j] == *w {
                        found = true;
                    }
                    j = j + 1;
                }
                proof {
                    if found {
                        let q = choose|q: int| 0 <= q < j && before[q] == w@;
                        assert(before.contains(w@));
                    } else {
                        assert(!before.contains(w@));
                    }
                }
                if !found {
                    self.word_cache.push(w.clone());
                    proof {
                        assert(self.vocabulary() =~= before.push(w@));
                    }
                }
            }
            i = i + 1;
        }
        proof {
            assert(ws.take(words@.len() as int) =~= ws);
        }
    }

    /// Adds the words of `line`: its pieces between runs of non-word
    /// characters that are at least two bytes long.
    pub fn update_cache(&mut self, line: &str)
        requires
            old(self).wf(),
        ensures
            final(self).wf(),
            final(self).spliting_regex == old(self).spliting_regex && final(self).word_regex == old(self).word_regex,
            old(self).spliting_regex.is_some() ==> final(self).vocabulary() == add_all(
                old(self).vocabulary(),
                regex_split(split_pattern(), line@),
            ),
            old(self).spliting_regex.is_none() ==> final(self).vocabulary() == old(
                self,
            ).vocabulary(),
            old(self).vocabulary().is_prefix_of(final(self).vocabulary()),
            final(self).list_mode == old(self).list_mode,
            final(self).selected_word == old(self).selected_word,
            final(self).cur_word == old(self).cur_word,
            final(self).completion_list == old(self).completion_list,
    {
        let pieces = match &self.spliting_regex {
            Some(re) => split_pieces(re, line),
            None => {
                assert(self.vocabulary() =~= self.vocabulary().subrange(0, self.vocabulary().len() as int));
                return ;
            },
        };
        self.add_words(&pieces);
        proof {
            lemma_add_all_extends(old(self).vocabulary(), strings_view(pieces@));
        }
    }

    /// Completes from the word runs `spans` of `line` (byte spans) at column
    /// `x`: the current word is the first run that contains `x`, ends
    /// included, and the candidates are the known words that start with it.
    /// With no such run both are empty.
    pub fn complete_from_spans(&mut self, line: &str, spans: &Vec<(usize, usize)>, x: usize)
        requires
            spans_wf(spans@, bytes_of(line@)),
        ensures
            completed(
                old(self).vocabulary(),
                bytes_of(line@),
                spans@,
                x as int,
                final(self).cur_word@,
                strings_view(final(self).completion_list@),
            ),
            final(self).vocabulary() == old(self).vocabulary(),
            final(self).spliting_regex == old(self).spliting_regex && final(self).word_regex == old(self).word_regex,
            final(self).list_mode == old(self).list_mode,
            final(self).selected_word == old(self).selected_word,
    {
        let mut k: usize = 0;
        while k < spans.len() && !(spans[k].0 <= x && x <= spans[k].1)
            invariant
                k <= spans@.len(),
                first_containing(spans@, x as int, 0) == first_containing(spans@, x as int, k as int),
            decreases spans@.len() - k,
        {
            k = k + 1;
        }
        if k == spans.len() {
            self.cur_word = String::new();
            self.completion_list = Vec::new();
            proof {
                assert(strings_view(self.completion_list@) =~= Seq::<Seq<char>>::empty());
            }
            return ;
        }
        assert(first_containing(spans@, x as int, k as int) == k);
        let cur = substring(line, spans[k].0, spans[k].1);
        let mut ret: Vec<String> = Vec::new();
        let ghost vocab = self.vocabulary();
        let ghost pred = |w: Seq<char>| bytes_of(cur@).is_prefix_of(bytes_of(w));
        let mut i: usize = 0;
        while i < self.word_cache.len()
            invariant
                vocab == self.vocabulary(),
                pred == (|w: Seq<char>| bytes_of(cur@).is_prefix_of(bytes_of(w))),
                i <= self.word_cache@.len(),
                strings_view(ret@) == vocab.take(i as int).filter(pred),
            decreases self.word_cache@.len() - i,
        {
            let w = &self.word_cache[i];
            proof {
                reveal(Seq::filter);
                assert(vocab.take(i + 1).drop_last() =~= vocab.take(i as int));
                assert(vocab.take(i + 1).last() == w@);
            }
            if starts_with(w.as_str(), cur.as_str()) {
                let ghost before = ret@;
                ret.push(w.clone());
                proof {
                    assert(strings_view(ret@) =~= strings_view(before).push(w@));
                }
            }
            i = i + 1;
        }
        proof {
            assert(vocab.take(self.word_cache@.len() as int) =~= vocab);
        }
        self.cur_word = cur;
        self.completion_list = ret;
    }

    /// Completes the word under `cursor` in its line of `text`; see
    /// `complete_from_spans`. Without the word pattern nothing is found.
    pub fn complete(&mut self, text: &Vec<String>, cursor: &Cursor)
        requires
            old(self).wf(),
            cursor.row() < text@.len(),
        ensures
            final(self).wf(),
            final(self).vocabulary() == old(self).vocabulary(),
            final(self).spliting_regex == old(self).spliting_regex && final(self).word_regex == old(self).word_regex,
            final(self).list_mode == old(self).list_mode,
            final(self).selected_word == old(self).selected_word,
            old(self).word_regex.is_some() ==> completed(
                old(self).vocabulary(),
                lines_view(text@)[cursor.row()],
                regex_spans(word_pattern(), text@[cursor.row()]@),
                cursor.x as int,
                final(self).cur_word@,
                strings_view(final(self).completion_list@),
            ),
            old(self).word_regex.is_none() ==> final(self).cur_word@ == Seq::<char>::empty()
                && final(self).completion_list@ == Seq::<String>::empty(),
    {
        let _n = text.len();
        let line = text[cursor.get_absolute_y()].as_str();
        match &self.word_regex {
            Some(re) => {
                let spans = find_spans(re, line);
                self.complete_from_spans(line, &spans, cursor.x);
                assert(lines_view(text@)[cursor.row()] == bytes_of(line@));
            },
            None => {
                self.cur_word = String::new();
                self.completion_list = Vec::new();
            },
        }
    }
}

} // verus!
