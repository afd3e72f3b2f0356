//! Calls into the regex and unicode-segmentation crates, with the contracts
//! the rest of the library relies on.
use unicode_segmentation::UnicodeSegmentation;
use vstd::prelude::*;

use crate::bytes::{boundary, bytes_of, prefix_sum};

verus! {

#[verifier::external_type_specification]
#[verifier::external_body]
pub struct ExRegex(regex::Regex);

#[verifier::external_type_specification]
#[verifier::external_body]
pub struct ExRegexError(regex::Error);

/// Spans of byte offsets into `hay`, each ordered, on character boundaries,
/// and in order without overlap.
pub open spec fn spans_wf(spans: Seq<(usize, usize)>, hay: Seq<u8>) -> bool {
    &&& forall|k: int|
        #![trigger spans[k]]
        0 <= k < spans.len() ==> {
            &&& spans[k].0 <= spans[k].1 <= hay.len()
            &&& boundary(hay, spans[k].0 as int)
            &&& boundary(hay, spans[k].1 as int)
        }
    &&& forall|a: int, b: int|
        #![trigger spans[a], spans[b]]
        0 <= a < b < spans.len() ==> spans[a].1 <= spans[b].0
}

/// Byte lengths of the pieces of `text`: each non-empty, ending on a
/// character boundary, and together covering `text` exactly.
pub open spec fn clusters_wf(lens: Seq<usize>, text: Seq<u8>) -> bool {
    &&& forall|k: int| #![trigger lens[k]] 0 <= k < lens.len() ==> lens[k] > 0
    &&& prefix_sum(lens, lens.len() as int) == text.len()
    &&& forall|k: int|
        #![trigger prefix_sum(lens, k)]
        0 <= k <= lens.len() ==> boundary(text, prefix_sum(lens, k))
}

/// Whether the regex crate accepts `pattern`.
pub uninterp spec fn regex_accepts(pattern: Seq<char>) -> bool;

/// The byte spans of the successive non-overlapping matches of `pattern`
/// in `hay`, as the regex crate finds them.
pub uninterp spec fn regex_spans(pattern: Seq<char>, hay: Seq<char>) -> Seq<(usize, usize)>;

/// The pieces of `hay` between the matches of `pattern`, as the regex
/// crate splits it.
pub uninterp spec fn regex_split(pattern: Seq<char>, hay: Seq<char>) -> Seq<Seq<char>>;

/// The byte lengths of the extended grapheme clusters of `s`, in order.
pub uninterp spec fn grapheme_lens(s: Seq<char>) -> Seq<usize>;

/// Relies on regex::Regex::new: it compiles the pattern, or returns an error,
/// and which of the two depends on the pattern alone.
#[verifier::external_body]
fn compile_regex(pattern: &str) -> (r: Result<regex::Regex, regex::Error>)
    ensures
        r.is_ok() == regex_accepts(pattern@),
{
    regex::Regex::new(pattern)
}

/// A compiled regex together with the pattern it was compiled from.
pub struct Pattern {
    re: regex::Regex,
    source: Ghost<Seq<char>>,
}

impl Pattern {
    /// The pattern this regex was compiled from.
    pub closed spec fn source(&self) -> Seq<char> {
        self.source@
    }

    /// Compiles `pattern`; an error when the regex crate refuses it.
    pub fn new(pattern: &str) -> (r: Result<Pattern, regex::Error>)
        ensures
            r.is_ok() == regex_accepts(pattern@),
            r is Ok ==> r->Ok_0.source() == pattern@,
    {
        match compile_regex(pattern) {
            Ok(re) => Ok(Pattern { re, source: Ghost(pattern@) }),
            Err(e) => Err(e),
        }
    }
}

/// Relies on regex::Regex::find_iter: successive non-overlapping matches,
/// each with start <= end, both on UTF-8 boundaries of the haystack; they
/// depend on the pattern and the haystack alone.
#[verifier::external_body]
pub(crate) fn find_spans(p: &Pattern, hay: &str) -> (r: Vec<(usize, usize)>)
    ensures
        r@ == regex_spans(p.source(), hay@),
        spans_wf(r@, bytes_of(hay@)),
{
    p.re.find_iter(hay).map(|m| (m.start(), m.end())).collect()
}

/// Relies on regex::Regex::split: the pieces of the haystack between the
/// matches, which depend on the pattern and the haystack alone.
#[verifier::external_body]
pub(crate) fn split_pieces(p: &Pattern, hay: &str) -> (r: Vec<String>)
    ensures
        r@.map_values(|s: String| s@) == regex_split(p.source(), hay@),
{
    p.re.split(hay).map(str::to_owned).collect()
}

/// Relies on UnicodeSegmentation::graphemes (extended clusters): the clusters
/// depend on the string alone, and are non-empty slices that, in order, make
/// up the whole string.
#[verifier::external_body]
pub(crate) fn grapheme_lengths(s: &str) -> (r: Vec<usize>)
    ensures
        r@ == grapheme_lens(s@),
        clusters_wf(r@, bytes_of(s@)),
{
    s.graphemes(true).map(str::len).collect()
}

} // verus!
