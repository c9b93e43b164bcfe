//! What is shown for a match: its label, drawn where the match begins, and the stretch of
//! text that the label hides.

use crate::labels::label_at;
use crate::locate::{on_boundaries, Span};
use crate::text::{
    byte_len, index_at, lemma_index_at, lemma_offset_end, lemma_offset_increases, offset_of, on_boundary,
    Decoded,
};
use vstd::prelude::*;
use vstd::string::StrSliceExecFns;

verus! {

/// The part that a letter plays in its label, by which it is styled.
#[derive(Clone, Copy, Debug, PartialEq, Eq, Structural)]
pub enum Role {
    /// The only letter of a label.
    Single,
    /// The first letter of two.
    First,
    /// The second letter of two.
    Second,
}

/// Priority with which the backdrop over the visible range is drawn.
pub const BACKDROP_PRIORITY: u8 = 101;

/// Priority with which labels are drawn: above the backdrop, so that a label shows on it.
pub const LABEL_PRIORITY: u8 = 102;

impl Role {
    /// Name of the style in which a letter of this role is drawn.
    pub open spec fn style(self) -> Seq<char> {
        match self {
            Role::Single => "hop.one_char"@,
            Role::First => "hop.char1"@,
            Role::Second => "hop.char2"@,
        }
    }

    /// Name of the style in which a letter of this role is drawn.
    pub fn form(self) -> (name: &'static str)
        ensures
            name@ == self.style(),
    {
        match self {
            Role::Single => "hop.one_char",
            Role::First => "hop.char1",
            Role::Second => "hop.char2",
        }
    }
}

/// One letter of a label as it is drawn.
#[derive(Clone, Copy, Debug, PartialEq, Eq, Structural)]
pub struct Glyph {
    pub role: Role,
    pub letter: char,
}

/// The label of one match: drawn at `start`, over the text from `start` up to `conceal_end`,
/// which is hidden.
#[derive(Clone, Debug)]
pub struct Overlay {
    pub start: usize,
    pub conceal_end: usize,
    pub label: String,
}

/// Where the hidden stretch ends for a match that gets a label of `glyphs` letters: after as
/// many characters as the label has letters, counted from the start of the match, or at the
/// end of the text if it comes first. A match of one character that a line feed follows
/// hides no more than itself, whatever the width of the character in bytes: the line feed is
/// never hidden with it.
pub open spec fn conceal_end(text: Seq<char>, span: Span, glyphs: int) -> int {
    let a = index_at(text, span.start as int);
    if before_line_feed(text, span) {
        span.end as int
    } else if a + glyphs <= text.len() {
        offset_of(text, a + glyphs) as int
    } else {
        byte_len(text) as int
    }
}

/// The letters of a label with their roles.
pub open spec fn glyphs_of(label: Seq<char>) -> Seq<Glyph>
    recommends
        label.len() == 1 || label.len() == 2,
{
    if label.len() == 1 {
        seq![Glyph { role: Role::Single, letter: label[0] }]
    } else {
        seq![Glyph { role: Role::First, letter: label[0] }, Glyph { role: Role::Second, letter: label[1] }]
    }
}

/// Whether `overlays` are those of the matches `spans` in `text`: one for each match, in
/// order, at the start of its match, with the label of its place.
pub open spec fn overlays_for(text: Seq<char>, spans: Seq<Span>, overlays: Seq<Overlay>) -> bool {
    &&& overlays.len() == spans.len()
    &&& forall|j: int| 0 <= j < overlays.len() ==> {
        &&& (#[trigger] overlays[j]).start == spans[j].start
        &&& overlays[j].label@ == label_at(spans.len(), j)
        &&& overlays[j].conceal_end == conceal_end(text, spans[j], overlays[j].label@.len() as int)
    }
}

/// Whether a match is one character long and a line feed follows it.
pub open spec fn before_line_feed(text: Seq<char>, span: Span) -> bool {
    let a = index_at(text, span.start as int);
    let b = index_at(text, span.end as int);
    b == a + 1 && b < text.len() && text[b] == '\n'
}

/// The hidden stretch holds as many characters as the label has letters, whatever their
/// widths in bytes; but no more than the text still has, and one only for a match of one
/// character that a line feed follows.
pub proof fn lemma_conceal_counts_characters(text: Seq<char>, span: Span, glyphs: int)
    requires
        on_boundary(text, span.start as int),
        on_boundary(text, span.end as int),
        0 <= glyphs,
    ensures
        on_boundary(text, conceal_end(text, span, glyphs)),
        before_line_feed(text, span) ==> conceal_end(text, span, glyphs) == span.end,
        index_at(text, conceal_end(text, span, glyphs)) - index_at(text, span.start as int) == (
        if before_line_feed(text, span) {
            1
        } else if index_at(text, span.start as int) + glyphs <= text.len() {
            glyphs
        } else {
            text.len() - index_at(text, span.start as int)
        }),
{
    let a = index_at(text, span.start as int);
    let b = index_at(text, span.end as int);
    lemma_offset_end(text);
    lemma_index_at(text, text.len() as int);
    if before_line_feed(text, span) {
        assert(offset_of(text, b) == span.end);
    } else if a + glyphs <= text.len() {
        lemma_index_at(text, a + glyphs);
    }
}

impl Overlay {
    /// The letters of the label with their roles, in the order in which they are drawn.
    pub fn glyphs(&self) -> (out: Vec<Glyph>)
        requires
            self.label@.len() == 1 || self.label@.len() == 2,
        ensures
            out@ == glyphs_of(self.label@),
    {
        let label = self.label.as_str();
        let mut out: Vec<Glyph> = Vec::new();
        if label.unicode_len() == 1 {
            out.push(Glyph { role: Role::Single, letter: label.get_char(0) });
        } else {
            out.push(Glyph { role: Role::First, letter: label.get_char(0) });
            out.push(Glyph { role: Role::Second, letter: label.get_char(1) });
        }
        assert(out@ =~= glyphs_of(self.label@));
        out
    }
}

/// Finds where the hidden stretch of a match ends.
pub fn conceal(page: &Decoded, span: Span, glyphs: usize) -> (end: usize)
    requires
        on_boundary(page@, span.start as int),
        on_boundary(page@, span.end as int),
    ensures
        end == conceal_end(page@, span, glyphs as int),
{
    let n = page.len();
    proof {
        lemma_offset_end(page@);
    }
    match (page.find(span.start), page.find(span.end)) {
        (Some(a), Some(b)) => {
            if b < n && a < b && b - a == 1 && page.char_at(b) == '\n' {
                span.end
            } else if glyphs <= n - a {
                page.start_of(a + glyphs)
            } else {
                page.start_of(n)
            }
        },
        _ => span.start,
    }
}

/// Makes the overlays of the matches `spans`, given the labels made for their number.
pub fn plan(page: &Decoded, spans: &Vec<Span>, labels: &Vec<String>) -> (overlays: Vec<Overlay>)
    requires
        on_boundaries(page@, spans@),
        spans@.len() <= labels@.len(),
        forall|j: int| 0 <= j < spans@.len() ==> (#[trigger] labels@[j])@ == label_at(spans@.len(), j),
    ensures
        overlays_for(page@, spans@, overlays@),
{
    let mut overlays: Vec<Overlay> = Vec::new();
    let mut j: usize = 0;
    while j < spans.len()
        invariant
            on_boundaries(page@, spans@),
            spans@.len() <= labels@.len(),
            forall|j: int| 0 <= j < spans@.len() ==> (#[trigger] labels@[j])@ == label_at(spans@.len(), j),
            j <= spans@.len(),
            overlays@.len() == j,
            forall|i: int| 0 <= i < j ==> {
                &&& (#[trigger] overlays@[i]).start == spans@[i].start
                &&& overlays@[i].label@ == label_at(spans@.len(), i)
                &&& overlays@[i].conceal_end == conceal_end(page@, spans@[i],
                    overlays@[i].label@.len() as int)
            },
        decreases spans@.len() - j,
    {
        let span = spans[j];
        let label = labels[j].clone();
        let glyphs = label.as_str().unicode_len();
        let conceal_end = conceal(page, span, glyphs);
        overlays.push(Overlay { start: span.start, conceal_end, label });
        j += 1;
    }
    overlays
}

} // verus!
