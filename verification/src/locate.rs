//! Finding the matches: words and lines of the visible text, and the check of matches that
//! the host found for an expression of the caller's.

use crate::text::{
    index_at, is_space, lemma_index_at, lemma_offset_increases, offset_of, on_boundary, space, Decoded,
};
use vstd::prelude::*;

verus! {

/// A stretch of the text, such as a match: the bytes from `start` up to `end`.
#[derive(Clone, Copy, Debug, PartialEq, Eq, Structural)]
pub struct Span {
    pub start: usize,
    pub end: usize,
}

/// Whether the characters from `a` up to `b` are a word of the characters from `lo` up to
/// `hi`: one or more characters that are not white space, with white space or an end of the
/// range on either side.
pub open spec fn is_word(text: Seq<char>, lo: int, hi: int, a: int, b: int) -> bool {
    &&& lo <= a < b <= hi
    &&& forall|k: int| a <= k < b ==> !is_space(#[trigger] text[k])
    &&& (a == lo || is_space(text[a - 1]))
    &&& (b == hi || is_space(text[b]))
}

/// Whether a line feed stands after character `k` and before character `a`.
pub open spec fn line_feed_between(text: Seq<char>, k: int, a: int) -> bool {
    exists|m: int| k < m < a && #[trigger] text[m] == '\n'
}

/// Whether a line's content begins at `a`, in the characters from `lo` up to `hi`: the
/// character is not white space, a character that is no line feed follows it, and nothing
/// but white space stands before it on its line.
pub open spec fn begins_line(text: Seq<char>, lo: int, hi: int, a: int) -> bool {
    &&& lo <= a
    &&& a + 1 < hi
    &&& !is_space(text[a])
    &&& text[a + 1] != '\n'
    &&& forall|k: int| lo <= k < a && !is_space(#[trigger] text[k]) ==> line_feed_between(text, k, a)
}

/// Whether the characters from `a` up to `b` are the content of a line: it begins at `a` and
/// runs to the line feed that ends the line, or to the end of the range.
pub open spec fn is_line(text: Seq<char>, lo: int, hi: int, a: int, b: int) -> bool {
    &&& begins_line(text, lo, hi, a)
    &&& a + 1 < b <= hi
    &&& forall|k: int| a < k < b ==> #[trigger] text[k] != '\n'
    &&& (b == hi || text[b] == '\n')
}

/// Index of the character at which `span` begins.
pub open spec fn head(text: Seq<char>, span: Span) -> int {
    index_at(text, span.start as int)
}

/// Index of the character before which `span` ends.
pub open spec fn tail(text: Seq<char>, span: Span) -> int {
    index_at(text, span.end as int)
}

/// Whether character `k` lies in `span`.
pub open spec fn covers(text: Seq<char>, span: Span, k: int) -> bool {
    head(text, span) <= k < tail(text, span)
}

/// Whether each span begins and ends where a character begins, or at the end of the text.
pub open spec fn on_boundaries(text: Seq<char>, spans: Seq<Span>) -> bool {
    forall|j: int| 0 <= j < spans.len() ==> on_boundary(text, (#[trigger] spans[j]).start as int)
        && on_boundary(text, spans[j].end as int)
}

/// Whether the spans are not empty and come one after the other without overlap.
pub open spec fn in_order(spans: Seq<Span>) -> bool {
    &&& forall|j: int| 0 <= j < spans.len() ==> (#[trigger] spans[j]).start < spans[j].end
    &&& forall|i: int, j: int| 0 <= i < j < spans.len() ==>
        (#[trigger] spans[i]).end <= (#[trigger] spans[j]).start
}

/// Whether `spans` can stand as the matches in the bytes from `start` up to `end` of `text`:
/// they keep to character boundaries, lie in the range, are not empty and are in order.
pub open spec fn valid_matches(text: Seq<char>, start: int, end: int, spans: Seq<Span>) -> bool {
    &&& on_boundaries(text, spans)
    &&& in_order(spans)
    &&& forall|j: int| 0 <= j < spans.len() ==> start <= (#[trigger] spans[j]).start && spans[j].end <= end
}

/// Whether `spans` are exactly the words in the bytes from `start` up to `end` of `text`, in
/// their order: each span is a word, and every character that is not white space lies in one.
pub open spec fn words_in(text: Seq<char>, start: int, end: int, spans: Seq<Span>) -> bool {
    let lo = index_at(text, start);
    let hi = index_at(text, end);
    &&& valid_matches(text, start, end, spans)
    &&& forall|j: int| 0 <= j < spans.len() ==>
        is_word(text, lo, hi, head(text, #[trigger] spans[j]), tail(text, spans[j]))
    &&& forall|k: int| lo <= k < hi && !is_space(#[trigger] text[k]) ==>
        exists|j: int| 0 <= j < spans.len() && covers(text, #[trigger] spans[j], k)
}

/// Whether `spans` are exactly the lines in the bytes from `start` up to `end` of `text`, in
/// their order: each span is the content of a line, and every place where such content
/// begins is the start of one.
pub open spec fn lines_in(text: Seq<char>, start: int, end: int, spans: Seq<Span>) -> bool {
    let lo = index_at(text, start);
    let hi = index_at(text, end);
    &&& valid_matches(text, start, end, spans)
    &&& forall|j: int| 0 <= j < spans.len() ==>
        is_line(text, lo, hi, head(text, #[trigger] spans[j]), tail(text, spans[j]))
    &&& forall|k: int| #[trigger] begins_line(text, lo, hi, k) ==> exists|j: int| 0 <= j < spans.len() &&
        head(text, #[trigger] spans[j]) == k
}

/// Two lists of spans in order that hold the same spans are the same list.
pub proof fn lemma_in_order_unique(a: Seq<Span>, b: Seq<Span>)
    requires
        in_order(a),
        in_order(b),
        forall|i: int| 0 <= i < a.len() ==> b.contains(#[trigger] a[i]),
        forall|j: int| 0 <= j < b.len() ==> a.contains(#[trigger] b[j]),
    ensures
        a == b,
    decreases a.len(),
{
    if a.len() == 0 {
        if b.len() > 0 {
            assert(a.contains(b[0]));
        }
        assert(a =~= b);
    } else {
        let la = a.len() - 1;
        assert(b.contains(a[la]));
        let j = choose|j: int| 0 <= j < b.len() && b[j] == a[la];
        let lb = b.len() - 1;
        assert(a.contains(b[lb]));
        let i = choose|i: int| 0 <= i < a.len() && a[i] == b[lb];
        if i < la {
            assert(a[i].end <= a[la].start);
        }
        if j < lb {
            assert(b[j].end <= b[lb].start);
        }
        assert(j == lb);
        let a1 = a.drop_last();
        let b1 = b.drop_last();
        assert forall|i: int| 0 <= i < a1.len() implies b1.contains(#[trigger] a1[i]) by {
            assert(b.contains(a[i]));
            let j = choose|j: int| 0 <= j < b.len() && b[j] == a[i];
            assert(a[i].end <= a[la].start);
            assert(b1[j] == a1[i]);
        }
        assert forall|j: int| 0 <= j < b1.len() implies a1.contains(#[trigger] b1[j]) by {
            assert(a.contains(b[j]));
            let i = choose|i: int| 0 <= i < a.len() && a[i] == b[j];
            assert(b[j].end <= b[lb].start);
            assert(a1[i] == b1[j]);
        }
        lemma_in_order_unique(a1, b1);
        assert(a =~= a1.push(a[la]));
        assert(b =~= b1.push(b[lb]));
    }
}

/// A span on character boundaries is given by the characters at which it begins and ends.
proof fn lemma_same_span(text: Seq<char>, s: Span, t: Span)
    requires
        on_boundary(text, s.start as int),
        on_boundary(text, s.end as int),
        on_boundary(text, t.start as int),
        on_boundary(text, t.end as int),
        index_at(text, s.start as int) == index_at(text, t.start as int),
        index_at(text, s.end as int) == index_at(text, t.end as int),
    ensures
        s == t,
{
}

proof fn lemma_word_is_among(text: Seq<char>, start: int, end: int, s: Seq<Span>, t: Seq<Span>, i: int)
    requires
        words_in(text, start, end, s),
        words_in(text, start, end, t),
        0 <= i < s.len(),
    ensures
        t.contains(s[i]),
{
    let lo = index_at(text, start);
    let hi = index_at(text, end);
    let a0 = index_at(text, s[i].start as int);
    let a1 = index_at(text, s[i].end as int);
    assert(is_word(text, lo, hi, a0, a1));
    assert(!is_space(text[a0]));
    let j = choose|j: int| 0 <= j < t.len() && covers(text, #[trigger] t[j], a0);
    let b0 = index_at(text, t[j].start as int);
    let b1 = index_at(text, t[j].end as int);
    assert(is_word(text, lo, hi, b0, b1));
    if b0 < a0 {
        assert(!is_space(text[a0 - 1]));
    }
    if a1 < b1 {
        assert(!is_space(text[a1]));
    }
    if b1 < a1 {
        assert(!is_space(text[b1]));
    }
    lemma_same_span(text, s[i], t[j]);
}

proof fn lemma_line_is_among(text: Seq<char>, start: int, end: int, s: Seq<Span>, t: Seq<Span>, i: int)
    requires
        lines_in(text, start, end, s),
        lines_in(text, start, end, t),
        0 <= i < s.len(),
    ensures
        t.contains(s[i]),
{
    let lo = index_at(text, start);
    let hi = index_at(text, end);
    let a0 = index_at(text, s[i].start as int);
    let a1 = index_at(text, s[i].end as int);
    assert(is_line(text, lo, hi, a0, a1));
    assert(begins_line(text, lo, hi, a0));
    let j = choose|j: int| 0 <= j < t.len() && index_at(text, (#[trigger] t[j]).start as int) == a0;
    let b1 = index_at(text, t[j].end as int);
    assert(is_line(text, lo, hi, a0, b1));
    if a1 < b1 {
        assert(text[a1] != '\n');
    }
    if b1 < a1 {
        assert(text[b1] != '\n');
    }
    lemma_same_span(text, s[i], t[j]);
}

/// The words of a range are one list of spans and no other.
pub proof fn lemma_words_unique(text: Seq<char>, start: int, end: int, a: Seq<Span>, b: Seq<Span>)
    requires
        words_in(text, start, end, a),
        words_in(text, start, end, b),
    ensures
        a == b,
{
    assert forall|i: int| 0 <= i < a.len() implies b.contains(#[trigger] a[i]) by {
        lemma_word_is_among(text, start, end, a, b, i);
    }
    assert forall|j: int| 0 <= j < b.len() implies a.contains(#[trigger] b[j]) by {
        lemma_word_is_among(text, start, end, b, a, j);
    }
    lemma_in_order_unique(a, b);
}

/// The lines of a range are one list of spans and no other.
pub proof fn lemma_lines_unique(text: Seq<char>, start: int, end: int, a: Seq<Span>, b: Seq<Span>)
    requires
        lines_in(text, start, end, a),
        lines_in(text, start, end, b),
    ensures
        a == b,
{
    assert forall|i: int| 0 <= i < a.len() implies b.contains(#[trigger] a[i]) by {
        lemma_line_is_among(text, start, end, a, b, i);
    }
    assert forall|j: int| 0 <= j < b.len() implies a.contains(#[trigger] b[j]) by {
        lemma_line_is_among(text, start, end, b, a, j);
    }
    lemma_in_order_unique(a, b);
}

/// Finds the words among the characters from `lo` up to `hi`.
pub fn find_words(page: &Decoded, lo: usize, hi: usize) -> (spans: Vec<Span>)
    requires
        lo <= hi <= page@.len(),
    ensures
        words_in(page@, offset_of(page@, lo as int) as int, offset_of(page@, hi as int) as int, spans@),
{
    let ghost text = page@;
    let mut spans: Vec<Span> = Vec::new();
    let mut i: usize = lo;
    proof {
        lemma_index_at(text, lo as int);
        lemma_index_at(text, hi as int);
    }
    while i < hi
        invariant
            text == page@,
            lo <= i <= hi <= text.len(),
            i == lo || i == hi || is_space(text[i - 1]) || is_space(text[i as int]),
            on_boundaries(text, spans@),
            in_order(spans@),
            forall|j: int| 0 <= j < spans@.len() ==>
                offset_of(text, lo as int) <= (#[trigger] spans@[j]).start &&
                    spans@[j].end <= offset_of(text, i as int),
            forall|j: int| 0 <= j < spans@.len() ==>
                is_word(text, lo as int, hi as int, head(text, #[trigger] spans@[j]), tail(text, spans@[j])),
            forall|k: int| lo <= k < i && !is_space(#[trigger] text[k]) ==>
                exists|j: int| 0 <= j < spans@.len() && covers(text, #[trigger] spans@[j], k),
        decreases hi - i,
    {
        if space(page.char_at(i)) {
            proof {
                lemma_offset_increases(text, i as int, i as int + 1);
            }
            i += 1;
        } else {
            let a = i;
            let mut b: usize = i + 1;
            while b < hi && !space(page.char_at(b))
                invariant
                            text == page@,
                    a < b <= hi <= text.len(),
                    forall|k: int| a <= k < b ==> !is_space(#[trigger] text[k]),
                decreases hi - b,
            {
                b += 1;
            }
            let span = Span { start: page.start_of(a), end: page.start_of(b) };
            proof {
                lemma_index_at(text, a as int);
                lemma_index_at(text, b as int);
                lemma_offset_increases(text, a as int, b as int);
                lemma_offset_increases(text, lo as int, a as int);
                let old_spans = spans@;
                let new_spans = spans@.push(span);
                assert forall|k: int| lo <= k < b && !is_space(#[trigger] text[k]) implies
                    exists|j: int| 0 <= j < new_spans.len() && covers(text, #[trigger] new_spans[j], k) by {
                    if k < a {
                        let j = choose|j: int| 0 <= j < old_spans.len() &&
                            covers(text, #[trigger] old_spans[j], k);
                        assert(new_spans[j] == old_spans[j]);
                    } else {
                        assert(new_spans[old_spans.len() as int] == span);
                    }
                }
            }
            spans.push(span);
            i = b;
        }
    }
    spans
}

/// Finds the contents of the lines among the characters from `lo` up to `hi`.
pub fn find_lines(page: &Decoded, lo: usize, hi: usize) -> (spans: Vec<Span>)
    requires
        lo <= hi <= page@.len(),
    ensures
        lines_in(page@, offset_of(page@, lo as int) as int, offset_of(page@, hi as int) as int, spans@),
{
    let ghost text = page@;
    let mut spans: Vec<Span> = Vec::new();
    let mut i: usize = lo;
    proof {
        lemma_index_at(text, lo as int);
        lemma_index_at(text, hi as int);
    }
    while i < hi
        invariant
            text == page@,
            lo <= i <= hi <= text.len(),
            i < hi ==> forall|k: int| lo <= k < i && !is_space(#[trigger] text[k]) ==>
                line_feed_between(text, k, i as int),
            on_boundaries(text, spans@),
            in_order(spans@),
            forall|j: int| 0 <= j < spans@.len() ==>
                offset_of(text, lo as int) <= (#[trigger] spans@[j]).start &&
                    spans@[j].end <= offset_of(text, i as int),
            forall|j: int| 0 <= j < spans@.len() ==>
                is_line(text, lo as int, hi as int, head(text, #[trigger] spans@[j]), tail(text, spans@[j])),
            forall|k: int| k < i && #[trigger] begins_line(text, lo as int, hi as int, k) ==>
                exists|j: int| 0 <= j < spans@.len() && head(text, #[trigger] spans@[j]) == k,
        decreases hi - i,
    {
        if space(page.char_at(i)) {
            proof {
                lemma_offset_increases(text, i as int, i as int + 1);
                assert forall|k: int| lo <= k < i + 1 && !is_space(#[trigger] text[k]) implies
                    line_feed_between(text, k, i as int + 1) by {
                    let m = choose|m: int| k < m < i && #[trigger] text[m] == '\n';
                    assert(k < m < i + 1 && text[m] == '\n');
                }
            }
            i += 1;
        } else {
            let a = i;
            let mut b: usize = i + 1;
            while b < hi && page.char_at(b) != '\n'
                invariant
                            text == page@,
                    a < b <= hi <= text.len(),
                    forall|k: int| a < k < b ==> #[trigger] text[k] != '\n',
                decreases hi - b,
            {
                b += 1;
            }
            let next: usize = if b < hi {
                b + 1
            } else {
                b
            };
            let ghost old_spans = spans@;
            proof {
                lemma_index_at(text, a as int);
                lemma_index_at(text, b as int);
                lemma_offset_increases(text, a as int, b as int);
                lemma_offset_increases(text, lo as int, a as int);
                lemma_offset_increases(text, b as int, next as int);
                assert forall|k: int| a < k < next implies !begins_line(text, lo as int, hi as int, k) by {
                    if k < b && begins_line(text, lo as int, hi as int, k) {
                        assert(!is_space(text[a as int]));
                        assert(line_feed_between(text, a as int, k));
                    }
                }
                if next < hi {
                    assert forall|k: int| lo <= k < next && !is_space(#[trigger] text[k]) implies
                        line_feed_between(text, k, next as int) by {
                        assert(k < b < next && text[b as int] == '\n');
                    }
                }
            }
            if b > a + 1 {
                let span = Span { start: page.start_of(a), end: page.start_of(b) };
                spans.push(span);
                proof {
                    let new_spans = spans@;
                    assert(new_spans[old_spans.len() as int] == span);
                    assert forall|k: int| k < next &&
                        #[trigger] begins_line(text, lo as int, hi as int, k) implies
                            exists|j: int| 0 <= j < new_spans.len() &&
                                head(text, #[trigger] new_spans[j]) == k by {
                        if k < a {
                            let j = choose|j: int| 0 <= j < old_spans.len() &&
                                head(text, #[trigger] old_spans[j]) == k;
                            assert(new_spans[j] == old_spans[j]);
                        }
                    }
                }
            }
            i = next;
        }
    }
    spans
}

/// Tells whether `spans` can stand as the matches in the bytes from `start` up to `end`.
pub fn check_matches(page: &Decoded, start: usize, end: usize, spans: &Vec<Span>) -> (ok: bool)
    ensures
        ok == valid_matches(page@, start as int, end as int, spans@),
{
    let ghost text = page@;
    let mut floor: usize = start;
    let mut j: usize = 0;
    while j < spans.len()
        invariant
            text == page@,
            j <= spans@.len(),
            start <= floor,
            valid_matches(text, start as int, end as int, spans@.take(j as int)),
            forall|i: int| 0 <= i < j ==> (#[trigger] spans@[i]).end <= floor,
            j == 0 ==> floor == start,
            j > 0 ==> floor == spans@[j - 1].end,
        decreases spans@.len() - j,
    {
        let s = spans[j];
        let aligned = page.find(s.start).is_some() && page.find(s.end).is_some();
        if !aligned || s.start < floor || s.start >= s.end || s.end > end {
            proof {
                if valid_matches(text, start as int, end as int, spans@) {
                    assert(spans@[j as int] == s);
                    if s.start < floor && j > 0 {
                        assert(spans@[j - 1].end <= spans@[j as int].start);
                    }
                }
            }
            return false;
        }
        proof {
            let before = spans@.take(j as int);
            let after = spans@.take(j as int + 1);
            assert(after =~= before.push(s));
            assert forall|i: int| 0 <= i < after.len() implies
                on_boundary(text, (#[trigger] after[i]).start as int) &&
                    on_boundary(text, after[i].end as int) by {
                if i < j {
                    assert(after[i] == before[i]);
                }
            }
            assert forall|i: int| 0 <= i < after.len() implies (#[trigger] after[i]).start < after[i].end &&
                start <= after[i].start && after[i].end <= end by {
                if i < j {
                    assert(after[i] == before[i]);
                }
            }
            assert forall|a: int, b: int| 0 <= a < b < after.len() implies
                (#[trigger] after[a]).end <= (#[trigger] after[b]).start by {
                assert(after[a] == spans@[a]);
                if b < j {
                    assert(after[a] == before[a] && after[b] == before[b]);
                }
            }
        }
        floor = s.end;
        j += 1;
    }
    proof {
        assert(spans@.take(j as int) =~= spans@);
    }
    true
}

} // verus!
