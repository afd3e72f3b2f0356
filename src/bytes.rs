//! UTF-8 byte views of strings, character boundaries, and the few string
//! operations the editor is built from.
use vstd::prelude::*;
use vstd::string::*;
use vstd::utf8::*;

verus! {

/// The bytes of a string, as a sequence.
pub open spec fn bytes_of(s: Seq<char>) -> Seq<u8> {
    encode_utf8(s)
}

/// The lines of a document, each seen as its UTF-8 bytes.
pub open spec fn lines_view(lines: Seq<String>) -> Seq<Seq<u8>> {
    lines.map_values(|l: String| bytes_of(l@))
}

/// A byte offset that falls between two characters of `b`: either end, or
/// an inner position whose byte is not a UTF-8 continuation byte.
pub open spec fn boundary(b: Seq<u8>, i: int) -> bool {
    i == 0 || i == b.len() || (0 < i < b.len() && !is_continuation_byte(b[i]))
}

/// The sum of the first `k` entries of `lens`.
pub open spec fn prefix_sum(lens: Seq<usize>, k: int) -> int
    decreases k,
{
    if k <= 0 || lens.len() == 0 {
        0
    } else if k > lens.len() {
        prefix_sum(lens, lens.len() as int)
    } else {
        prefix_sum(lens, k - 1) + lens[k - 1]
    }
}

/// `pieces` joined with a newline byte between each two.
pub open spec fn join_lines(pieces: Seq<Seq<u8>>) -> Seq<u8>
    decreases pieces.len(),
{
    if pieces.len() == 0 {
        Seq::empty()
    } else if pieces.len() == 1 {
        pieces[0]
    } else {
        join_lines(pieces.drop_last()) + seq![NEWLINE] + pieces.last()
    }
}

/// The line terminator byte.
pub const NEWLINE: u8 = 10;

/// A string holding one newline.
pub fn newline() -> (r: String)
    ensures
        bytes_of(r@) == seq![NEWLINE],
{
    let r = String::from_str("\n");
    proof {
        reveal_strlit("\n");
        assert(r@ =~= seq!['\n']);
        let c: u32 = '\n' as u32;
        assert(c == 10);
        assert((c & 0x7f) as u8 == 10) by (bit_vector)
            requires
                c == 10,
        ;
        assert(r@.drop_first() =~= Seq::<char>::empty());
        assert(encode_utf8(r@.drop_first()) == Seq::<u8>::empty());
        assert(r@[0] as u32 == c);
        assert(encode_scalar(c) == seq![10u8]);
        assert(encode_utf8(r@) == encode_scalar(r@[0] as u32) + encode_utf8(r@.drop_first()));
        assert(bytes_of(r@) =~= seq![NEWLINE]);
    }
    r
}

/// Appends the string `t` to `s`, in bytes.
pub fn push_bytes(s: &mut String, t: &str)
    ensures
        bytes_of(final(s)@) == bytes_of(old(s)@) + bytes_of(t@),
{
    let ghost before = s@;
    s.append(t);
    proof {
        lemma_bytes_concat(before, t@);
    }
}

/// Encoding distributes over concatenation.
pub proof fn lemma_bytes_concat(a: Seq<char>, b: Seq<char>)
    ensures
        bytes_of(a + b) == bytes_of(a) + bytes_of(b),
    decreases a.len(),
{
    if a.len() == 0 {
        assert(a + b =~= b);
        assert(bytes_of(a) + bytes_of(b) =~= bytes_of(b));
    } else {
        lemma_bytes_concat(a.drop_first(), b);
        assert((a + b).drop_first() =~= a.drop_first() + b);
        assert((a + b)[0] == a[0]);
        assert(bytes_of(a + b) =~= bytes_of(a) + bytes_of(b));
    }
}

/// Two strings with the same bytes are the same characters.
pub proof fn lemma_bytes_injective(a: Seq<char>, b: Seq<char>)
    requires
        bytes_of(a) == bytes_of(b),
    ensures
        a == b,
{
    encode_utf8_decode_utf8(a);
    encode_utf8_decode_utf8(b);
}

/// The encoded bytes of a string are valid UTF-8.
pub proof fn lemma_bytes_valid(a: Seq<char>)
    ensures
        valid_utf8(bytes_of(a)),
{
    encode_utf8_valid_utf8(a);
}

/// On valid UTF-8, `boundary` is std's notion of a character boundary.
pub proof fn lemma_boundary(b: Seq<u8>, i: int)
    requires
        valid_utf8(b),
    ensures
        is_char_boundary(b, i) == boundary(b, i),
{
    is_char_boundary_start_end_of_seq(b);
    if 0 < i < b.len() {
        is_char_boundary_iff_not_is_continuation_byte(b, i);
    }
}

/// The length of `s` in bytes.
pub fn byte_len(s: &str) -> (r: usize)
    ensures
        r == bytes_of(s@).len(),
{
    s.as_bytes().len()
}

/// Whether byte offset `i` of `s` falls between two characters.
pub fn is_boundary_at(s: &str, i: usize) -> (r: bool)
    ensures
        r == (i <= bytes_of(s@).len() && boundary(bytes_of(s@), i as int)),
{
    let b = s.as_bytes();
    if i > b.len() {
        false
    } else if i == 0 || i == b.len() {
        true
    } else {
        !(0x80 <= b[i] && b[i] <= 0xbf)
    }
}

/// The bytes of `s` from `start` up to `end`, as a new string.
pub fn substring(s: &str, start: usize, end: usize) -> (r: String)
    requires
        start <= end <= bytes_of(s@).len(),
        boundary(bytes_of(s@), start as int),
        boundary(bytes_of(s@), end as int),
    ensures
        bytes_of(r@) == bytes_of(s@).subrange(start as int, end as int),
{
    proof {
        lemma_bytes_valid(s@);
        lemma_boundary(bytes_of(s@), end as int);
    }
    let (head, _) = s.split_at(end);
    proof {
        lemma_bytes_valid(head@);
        lemma_boundary(bytes_of(head@), start as int);
    }
    let (_, mid) = head.split_at(start);
    let r = mid.to_owned();
    proof {
        assert(bytes_of(r@) =~= bytes_of(s@).subrange(start as int, end as int));
    }
    r
}

} // verus!
