//! Syntax classes for the characters of a line, from a set of regex rules
//! tried in a fixed priority order.
use vstd::prelude::*;

use crate::bindings::{
    find_spans, grapheme_lengths, grapheme_lens, regex_accepts, regex_spans, spans_wf, Pattern,
};
use crate::bytes::{byte_len, bytes_of, prefix_sum};

verus! {

/// The class a character is shown with.
#[derive(Clone, Copy, Debug, PartialEq, Eq, Structural)]
pub enum SyntaxClass {
    Constant,
    Keyword,
    SecondaryWord,
    Preproc,
    DataType,
    Comment,
    Other,
}

/// Number of rules in a rule set.
pub const RULE_COUNT: usize = 6;

/// The class given by the rule at priority `i`.
pub open spec fn rule_class(i: int) -> SyntaxClass {
    if i == 0 {
        SyntaxClass::Constant
    } else if i == 1 {
        SyntaxClass::Keyword
    } else if i == 2 {
        SyntaxClass::SecondaryWord
    } else if i == 3 {
        SyntaxClass::Preproc
    } else if i == 4 {
        SyntaxClass::DataType
    } else if i == 5 {
        SyntaxClass::Comment
    } else {
        SyntaxClass::Other
    }
}

/// Some span of `spans` contains byte offset `p`.
pub open spec fn covers(spans: Seq<(usize, usize)>, p: int) -> bool {
    exists|k: int| #![trigger spans[k]] 0 <= k < spans.len() && spans[k].0 <= p < spans[k].1
}

/// The class of offset `p` from the rules at priority `i` and after: the
/// first of them with a match containing `p`, else `Other`.
pub open spec fn class_from(rules: Seq<Seq<(usize, usize)>>, p: int, i: int) -> SyntaxClass
    decreases rules.len() - i,
{
    if i < 0 || i >= rules.len() {
        SyntaxClass::Other
    } else if covers(rules[i], p) {
        rule_class(i)
    } else {
        class_from(rules, p, i + 1)
    }
}

/// The class of each character cluster of a line, where `clusters` holds the
/// clusters' byte lengths and `rules` each rule's matches.
pub open spec fn line_classes(rules: Seq<Seq<(usize, usize)>>, clusters: Seq<usize>) -> Seq<
    SyntaxClass,
> {
    Seq::new(clusters.len(), |k: int| class_from(rules, prefix_sum(clusters, k), 0))
}

/// Each rule's matches in order and without overlap.
pub open spec fn rules_sorted(rules: Seq<Seq<(usize, usize)>>) -> bool {
    forall|i: int|
        #![trigger rules[i]]
        0 <= i < rules.len() ==> {
            &&& forall|k: int|
                #![trigger rules[i][k]]
                0 <= k < rules[i].len() ==> rules[i][k].0 <= rules[i][k].1
            &&& forall|a: int, b: int|
                #![trigger rules[i][a], rules[i][b]]
                0 <= a < b < rules[i].len() ==> rules[i][a].1 <= rules[i][b].0
        }
}

/// Each rule's matches, as sequences.
pub open spec fn rules_view(rules: Seq<Vec<(usize, usize)>>) -> Seq<Seq<(usize, usize)>> {
    rules.map_values(|v: Vec<(usize, usize)>| v@)
}

proof fn lemma_prefix_sum_step(lens: Seq<usize>, k: int)
    requires
        0 <= k < lens.len(),
    ensures
        prefix_sum(lens, k + 1) == prefix_sum(lens, k) + lens[k],
        prefix_sum(lens, k) <= prefix_sum(lens, k + 1),
{
}

proof fn lemma_prefix_sum_mono(lens: Seq<usize>, j: int, k: int)
    requires
        0 <= j <= k <= lens.len(),
    ensures
        prefix_sum(lens, j) <= prefix_sum(lens, k),
    decreases k - j,
{
    if j < k {
        lemma_prefix_sum_mono(lens, j, k - 1);
    }
}

/// Moves `at` past every span of `spans` that ends at or before `pos`.
fn skip_ended(spans: &Vec<(usize, usize)>, at: usize, pos: usize) -> (r: usize)
    requires
        at <= spans@.len(),
        forall|m: int| #![trigger spans@[m]] 0 <= m < at ==> spans@[m].1 <= pos,
    ensures
        at <= r <= spans@.len(),
        forall|m: int| #![trigger spans@[m]] 0 <= m < r ==> spans@[m].1 <= pos,
        r < spans@.len() ==> spans@[r as int].1 > pos,
{
    let mut i = at;
    while i < spans.len() && spans[i].1 <= pos
        invariant
            at <= i <= spans@.len(),
            forall|m: int| #![trigger spans@[m]] 0 <= m < i ==> spans@[m].1 <= pos,
        decreases spans@.len() - i,
    {
        i = i + 1;
    }
    i
}

fn class_of_rule(i: usize) -> (r: SyntaxClass)
    ensures
        r == rule_class(i as int),
{
    if i == 0 {
        SyntaxClass::Constant
    } else if i == 1 {
        SyntaxClass::Keyword
    } else if i == 2 {
        SyntaxClass::SecondaryWord
    } else if i == 3 {
        SyntaxClass::Preproc
    } else if i == 4 {
        SyntaxClass::DataType
    } else if i == 5 {
        SyntaxClass::Comment
    } else {
        SyntaxClass::Other
    }
}

/// Classifies the character clusters of a line, given their byte lengths
/// and each rule's matches (byte spans) in priority order. Each rule keeps a
/// cursor on its next unfinished match as the sweep goes left to right.
pub fn classify(rules: &Vec<Vec<(usize, usize)>>, clusters: &Vec<usize>) -> (r: Vec<SyntaxClass>)
    requires
        rules_sorted(rules_view(rules@)),
        prefix_sum(clusters@, clusters@.len() as int) <= usize::MAX,
    ensures
        r@ == line_classes(rules_view(rules@), clusters@),
{
    let ghost rv = rules_view(rules@);
    let n_rules = rules.len();
    let mut cursors: Vec<usize> = Vec::new();
    let mut i: usize = 0;
    while i < n_rules
        invariant
            n_rules == rules@.len(),
            i <= n_rules,
            cursors@.len() == i,
            forall|j: int| #![trigger cursors@[j]] 0 <= j < i ==> cursors@[j] == 0,
        decreases n_rules - i,
    {
        cursors.push(0);
        i = i + 1;
    }
    let mut out: Vec<SyntaxClass> = Vec::new();
    let mut pos: usize = 0;
    let mut k: usize = 0;
    while k < clusters.len()
        invariant
            rv == rules_view(rules@),
            rules_sorted(rv),
            n_rules == rules@.len(),
            k <= clusters@.len(),
            prefix_sum(clusters@, clusters@.len() as int) <= usize::MAX,
            pos == prefix_sum(clusters@, k as int),
            cursors@.len() == n_rules,
            forall|j: int|
                #![trigger cursors@[j]]
                0 <= j < n_rules ==> cursors@[j] <= rv[j].len() && forall|m: int|
                    #![trigger rv[j][m]]
                    0 <= m < cursors@[j] ==> rv[j][m].1 <= pos,
            out@.len() == k,
            forall|q: int|
                #![trigger out@[q]]
                0 <= q < k ==> out@[q] == class_from(rv, prefix_sum(clusters@, q), 0),
        decreases clusters@.len() - k,
    {
        let mut j: usize = 0;
        while j < n_rules
            invariant
                rv == rules_view(rules@),
                n_rules == rules@.len(),
                j <= n_rules,
                cursors@.len() == n_rules,
                forall|a: int|
                    #![trigger cursors@[a]]
                    0 <= a < n_rules ==> cursors@[a] <= rv[a].len() && forall|m: int|
                        #![trigger rv[a][m]]
                        0 <= m < cursors@[a] ==> rv[a][m].1 <= pos,
                forall|a: int|
                    #![trigger cursors@[a]]
                    0 <= a < j ==> cursors@[a] < rv[a].len() ==> rv[a][cursors@[a] as int].1 > pos,
            decreases n_rules - j,
        {
            let c = skip_ended(&rules[j], cursors[j], pos);
            cursors.set(j, c);
            j = j + 1;
        }
        let mut cls = SyntaxClass::Other;
        let mut j: usize = n_rules;
        while j > 0
            invariant
                rv == rules_view(rules@),
                rules_sorted(rv),
                n_rules == rules@.len(),
                j <= n_rules,
                cursors@.len() == n_rules,
                forall|a: int|
                    #![trigger cursors@[a]]
                    0 <= a < n_rules ==> cursors@[a] <= rv[a].len() && forall|m: int|
                        #![trigger rv[a][m]]
                        0 <= m < cursors@[a] ==> rv[a][m].1 <= pos,
                forall|a: int|
                    #![trigger cursors@[a]]
                    0 <= a < n_rules ==> cursors@[a] < rv[a].len() ==> rv[a][cursors@[a] as int].1
                        > pos,
                cls == class_from(rv, pos as int, j as int),
            decreases j,
        {
            j = j - 1;
            let c = cursors[j];
            let hit = c < rules[j].len() && rules[j][c].0 <= pos;
            proof {
                let s = rv[j as int];
                assert(s == rules@[j as int]@);
                if hit {
                    assert(s[c as int].0 <= pos < s[c as int].1);
                    assert(covers(s, pos as int));
                } else {
                    assert forall|m: int| #![trigger s[m]] 0 <= m < s.len() implies !(s[m].0 <= pos < s[m].1) by {
                        if m < c {
                            assert(s[m].1 <= pos);
                        } else if m == c {
                        } else {
                            assert(s[c as int].1 <= s[m].0);
                        }
                    }
                    assert(!covers(s, pos as int));
                }
            }
            if hit {
                cls = class_of_rule(j);
            }
        }
        out.push(cls);
        proof {
            lemma_prefix_sum_step(clusters@, k as int);
            lemma_prefix_sum_mono(clusters@, k as int + 1, clusters@.len() as int);
        }
        pos = pos + clusters[k];
        k = k + 1;
    }
    proof {
        assert(out@ =~= line_classes(rv, clusters@));
    }
    out
}

} // verus!

verus! {

/// A compiled rule set: one regex per class, tried in the order of the
/// fields.
pub struct SyntaxHandler {
    pub constant: Pattern,
    pub keyword: Pattern,
    pub secondary_word: Pattern,
    pub preproc: Pattern,
    pub data_type: Pattern,
    pub comment: Pattern,
}

/// The matches of each rule of `h` in `line`, in priority order.
pub open spec fn handler_spans(h: SyntaxHandler, line: Seq<char>) -> Seq<Seq<(usize, usize)>> {
    seq![
        regex_spans(h.constant.source(), line),
        regex_spans(h.keyword.source(), line),
        regex_spans(h.secondary_word.source(), line),
        regex_spans(h.preproc.source(), line),
        regex_spans(h.data_type.source(), line),
        regex_spans(h.comment.source(), line),
    ]
}

/// Every rule's matches are well formed spans of `line`.
pub open spec fn rule_spans_wf(rules: Seq<Seq<(usize, usize)>>, line: Seq<u8>) -> bool {
    &&& rules.len() == RULE_COUNT
    &&& forall|i: int| #![trigger rules[i]] 0 <= i < rules.len() ==> spans_wf(rules[i], line)
}

proof fn lemma_wf_rules_sorted(rules: Seq<Seq<(usize, usize)>>, line: Seq<u8>)
    requires
        rule_spans_wf(rules, line),
    ensures
        rules_sorted(rules),
{
    assert forall|i: int| #![trigger rules[i]] 0 <= i < rules.len() implies {
        &&& forall|k: int|
            #![trigger rules[i][k]]
            0 <= k < rules[i].len() ==> rules[i][k].0 <= rules[i][k].1
        &&& forall|a: int, b: int|
            #![trigger rules[i][a], rules[i][b]]
            0 <= a < b < rules[i].len() ==> rules[i][a].1 <= rules[i][b].0
    } by {
        assert(spans_wf(rules[i], line));
    }
}

impl SyntaxHandler {
    /// Compiles a rule set from its six patterns; `None` when the regex
    /// crate refuses any of them.
    pub fn from_patterns(
        constant: &str,
        keyword: &str,
        secondary_word: &str,
        preproc: &str,
        data_type: &str,
        comment: &str,
    ) -> (r: Option<SyntaxHandler>)
        ensures
            r.is_some() == (regex_accepts(constant@) && regex_accepts(keyword@) && regex_accepts(
                secondary_word@,
            ) && regex_accepts(preproc@) && regex_accepts(data_type@) && regex_accepts(
                comment@,
            )),
            r matches Some(h) ==> {
                &&& h.constant.source() == constant@
                &&& h.keyword.source() == keyword@
                &&& h.secondary_word.source() == secondary_word@
                &&& h.preproc.source() == preproc@
                &&& h.data_type.source() == data_type@
                &&& h.comment.source() == comment@
            },
    {
        let c0 = Pattern::new(constant);
        let c1 = Pattern::new(keyword);
        let c2 = Pattern::new(secondary_word);
        let c3 = Pattern::new(preproc);
        let c4 = Pattern::new(data_type);
        let c5 = Pattern::new(comment);
        match (c0, c1, c2, c3, c4, c5) {
            (Ok(constant), Ok(keyword), Ok(secondary_word), Ok(preproc), Ok(data_type), Ok(comment)) => {
                Some(SyntaxHandler { constant, keyword, secondary_word, preproc, data_type, comment })
            },
            _ => None,
        }
    }

    /// Each rule's matches in `line`, in priority order.
    pub fn rule_spans(&self, line: &str) -> (r: Vec<Vec<(usize, usize)>>)
        ensures
            rules_view(r@) == handler_spans(*self, line@),
            rule_spans_wf(rules_view(r@), bytes_of(line@)),
    {
        let mut r: Vec<Vec<(usize, usize)>> = Vec::new();
        r.push(find_spans(&self.constant, line));
        r.push(find_spans(&self.keyword, line));
        r.push(find_spans(&self.secondary_word, line));
        r.push(find_spans(&self.preproc, line));
        r.push(find_spans(&self.data_type, line));
        r.push(find_spans(&self.comment, line));
        proof {
            let rv = rules_view(r@);
            assert forall|i: int| #![trigger rv[i]] 0 <= i < rv.len() implies spans_wf(
                rv[i],
                bytes_of(line@),
            ) by {
                assert(rv[i] == r@[i]@);
            }
            assert(rv =~= handler_spans(*self, line@));
        }
        r
    }

    /// The class of each character cluster of `line`: by the rule set when
    /// there is one, else `Other` throughout.
    pub fn get_line_color(line: &str, syntax: &Option<SyntaxHandler>) -> (r: Vec<SyntaxClass>)
        ensures
            match syntax {
                None => r@ == Seq::new(grapheme_lens(line@).len(), |k: int| SyntaxClass::Other),
                Some(h) => r@ == line_classes(handler_spans(*h, line@), grapheme_lens(line@)),
            },
    {
        let clusters = grapheme_lengths(line);
        // The clusters add up to the line's length, which fits in a usize.
        let _n = byte_len(line);
        match syntax {
            None => {
                let mut out: Vec<SyntaxClass> = Vec::new();
                let mut k: usize = 0;
                while k < clusters.len()
                    invariant
                        k <= clusters@.len(),
                        out@ =~= Seq::new(k as nat, |q: int| SyntaxClass::Other),
                    decreases clusters@.len() - k,
                {
                    out.push(SyntaxClass::Other);
                    k = k + 1;
                }
                assert(out@ =~= Seq::new(grapheme_lens(line@).len(), |k: int| SyntaxClass::Other));
                out
            },
            Some(h) => {
                let rules = h.rule_spans(line);
                proof {
                    lemma_wf_rules_sorted(rules_view(rules@), bytes_of(line@));
                }
                let out = classify(&rules, &clusters);
                out
            },
        }
    }
}

} // verus!
