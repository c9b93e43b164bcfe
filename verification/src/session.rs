//! The session: from entering the mode, through the keys typed, to the jump or the abort.

use crate::labels::{
    alphabetic, in_alphabet, is_alphabetic, is_letter, key_seqs, label_at, label_count, labels_for,
    lemma_label_shape, lemma_labels_prefix_free, push_char,
};
use crate::locate::{
    check_matches, find_lines, find_words, in_order, lemma_lines_unique, lemma_words_unique, lines_in,
    valid_matches, words_in, Span,
};
use crate::overlay::{overlays_for, plan, Overlay};
use crate::text::{lemma_offset_increases, on_boundary, Decoded};
use vstd::prelude::*;
use vstd::string::StrSliceExecFns;

verus! {

/// What is looked for in the visible text.
#[derive(Debug)]
pub enum Pattern {
    /// Words: runs of characters that are not white space.
    Word,
    /// Lines: what each line holds from its first character that is not white space on,
    /// where more follows that character.
    Line,
    /// An expression of the caller's, which the host searches for.
    Custom(String),
}

/// Where a session stands.
#[derive(Clone, Copy, Debug, PartialEq, Eq, Structural)]
pub enum Phase {
    /// The mode was not entered yet.
    Idle,
    /// Keys are awaited.
    Awaiting,
    /// A label was typed in full: the selection goes to this match.
    Resolved(Span),
    /// The session ended without a match.
    Aborted,
}

/// A key as the session sees it.
#[derive(Clone, Copy, Debug, PartialEq, Eq, Structural)]
pub enum Key {
    /// A character typed plainly. It is label input where it is alphabetic.
    Char(char),
    /// Any other key, which is no label input.
    Other,
}

/// Why the mode could not be entered.
#[derive(Clone, Copy, Debug, PartialEq, Eq, Structural)]
pub enum HopError {
    /// The visible range does not lie in the text, or cuts a character.
    BadRange,
    /// The host found the caller's expression malformed.
    MalformedPattern,
    /// The matches that the host found are empty, overlap, leave the visible range or cut a
    /// character.
    BadMatches,
    /// There are more matches than labels.
    TooManyMatches,
}

/// What the host is to install when the mode is entered.
#[derive(Clone, Debug)]
pub struct Entry {
    /// The visible range, over which the backdrop goes.
    pub backdrop: Span,
    /// The labels, one for each match, in the order of the text.
    pub overlays: Vec<Overlay>,
}

/// What the host is to do after a key.
#[derive(Clone, Debug)]
pub struct KeyOutcome {
    /// Tell the user that the key was no label input.
    pub rejected: bool,
    /// Drop every selection but the main one.
    pub clear_extras: bool,
    /// Take away the overlays that begin at these positions.
    pub retract: Vec<usize>,
    /// Move the main selection to this match.
    pub jump: Option<Span>,
    /// Leave the mode.
    pub exit: bool,
}

/// What the host is to do after a key, as a mathematical value.
pub struct Effect {
    pub rejected: bool,
    pub clear_extras: bool,
    pub retract: Seq<usize>,
    pub jump: Option<Span>,
    pub exit: bool,
}

impl View for KeyOutcome {
    type V = Effect;

    open spec fn view(&self) -> Effect {
        Effect {
            rejected: self.rejected,
            clear_extras: self.clear_extras,
            retract: self.retract@,
            jump: self.jump,
            exit: self.exit,
        }
    }
}

/// Whether `key` is no label input: no character at all, or a character that is not
/// alphabetic.
pub open spec fn is_refused(key: Key) -> bool {
    match key {
        Key::Other => true,
        Key::Char(c) => !is_alphabetic(c),
    }
}

/// A session as a mathematical value.
pub struct Session {
    /// The matches, in the order of the text.
    pub spans: Seq<Span>,
    /// The characters typed so far.
    pub typed: Seq<char>,
    pub phase: Phase,
    /// Whether overlays of this session stand in the host: the backdrop, and the labels of
    /// the matches that are still candidates.
    pub overlaid: bool,
}

impl Session {
    /// The label of match `i`.
    pub open spec fn label(self, i: int) -> Seq<char> {
        label_at(self.spans.len(), i)
    }

    /// Whether match `i` is still a candidate: what was typed begins its label.
    pub open spec fn live(self, i: int) -> bool {
        0 <= i < self.spans.len() && self.typed.is_prefix_of(self.label(i))
    }

    /// Whether the overlay of match `i` stands.
    pub open spec fn shown(self, i: int) -> bool {
        self.overlaid && self.live(i)
    }

    /// Whether `typed` is the label of some match.
    pub open spec fn names_a_match(self, typed: Seq<char>) -> bool {
        exists|i: int| 0 <= i < self.spans.len() && #[trigger] label_at(self.spans.len(), i) == typed
    }

    /// Whether `typed` begins the label of some match, so that a match is left as a candidate
    /// once `typed` is typed.
    pub open spec fn begins_a_label(self, typed: Seq<char>) -> bool {
        exists|i: int| 0 <= i < self.spans.len() &&
            typed.is_prefix_of(#[trigger] label_at(self.spans.len(), i))
    }

    /// What holds of every session: the matches are in order and each has a label; before
    /// the mode is entered there is nothing; while keys are awaited the overlays stand and
    /// at most one letter is typed, which is no label in full but begins the label of
    /// some match; and a session that jumped has the label of its match typed.
    pub open spec fn wf(self) -> bool {
        &&& in_order(self.spans)
        &&& self.spans.len() <= label_count(self.spans.len())
        &&& self.phase is Idle ==> !self.overlaid && self.spans.len() == 0 && self.typed.len() == 0
        &&& self.phase is Awaiting ==> {
            &&& self.overlaid
            &&& self.typed.len() == 0 || (self.typed.len() == 1 && is_letter(self.typed[0]))
            &&& !self.names_a_match(self.typed)
            &&& self.typed.len() == 1 ==> self.begins_a_label(self.typed)
        }
        &&& self.phase matches Phase::Resolved(span) ==> exists|i: int|
            0 <= i < self.spans.len() && #[trigger] self.spans[i] == span && self.label(i) == self.typed
    }

    /// The match whose label is `typed`, if there is one.
    pub open spec fn target(self, typed: Seq<char>) -> Option<int> {
        if self.names_a_match(typed) {
            Some(choose|i: int| 0 <= i < self.spans.len() &&
                #[trigger] label_at(self.spans.len(), i) == typed)
        } else {
            None
        }
    }

    /// Whether the character `c` ends the candidacy of match `i`.
    pub open spec fn drops(self, c: char, i: int) -> bool {
        self.live(i) && !self.typed.push(c).is_prefix_of(self.label(i))
    }

    /// The starts of the matches among the first `n` whose candidacy `c` ends, in order.
    pub open spec fn eliminated(self, c: char, n: int) -> Seq<usize>
        decreases n,
    {
        if n <= 0 {
            Seq::empty()
        } else if self.drops(c, n - 1) {
            self.eliminated(c, n - 1).push(self.spans[n - 1].start)
        } else {
            self.eliminated(c, n - 1)
        }
    }

    /// The session before the mode is entered.
    pub open spec fn idle() -> Session {
        Session { spans: Seq::empty(), typed: Seq::empty(), phase: Phase::Idle, overlaid: false }
    }

    /// The session after the mode was entered with the matches `spans`.
    pub open spec fn entered(spans: Seq<Span>) -> Session {
        Session { spans, typed: Seq::empty(), phase: Phase::Awaiting, overlaid: true }
    }

    /// The session after an attempt to enter the mode failed.
    pub open spec fn refused() -> Session {
        Session { spans: Seq::empty(), typed: Seq::empty(), phase: Phase::Aborted, overlaid: false }
    }

    /// The session after `key`, where `refused` says whether the key is no label input; a
    /// key that is no character is refused whatever `refused` says. Outside `Awaiting` a
    /// key changes nothing. A refused key aborts the session and leaves what was typed as
    /// it is; any other key is a character, which is added to what was typed. The session
    /// then jumps where a label is typed in full; it goes on awaiting keys where one letter
    /// of the alphabet is typed that begins the label of some match; and it is aborted
    /// otherwise, so also where no match is left as a candidate.
    pub open spec fn after_judged(self, key: Key, refused: bool) -> Session {
        if !(self.phase is Awaiting) {
            self
        } else if refused || key is Other {
            Session { phase: Phase::Aborted, ..self }
        } else {
            let c = key->Char_0;
            let typed = self.typed.push(c);
            let phase = match self.target(typed) {
                Some(i) => Phase::Resolved(self.spans[i]),
                None => if typed.len() >= 2 || !is_letter(c) || !self.begins_a_label(typed) {
                    Phase::Aborted
                } else {
                    Phase::Awaiting
                },
            };
            Session { typed, phase, ..self }
        }
    }

    /// What the host is to do after `key`, where `refused` says whether the key is no label
    /// input. After a refused key it tells the user so and leaves the mode, and does no
    /// more. After any other key it leaves the mode on a jump, on the second character, on
    /// a character that is no letter of the alphabet, and where no match is left as a
    /// candidate.
    pub open spec fn effect_judged(self, key: Key, refused: bool) -> Effect {
        if !(self.phase is Awaiting) {
            Effect { rejected: false, clear_extras: false, retract: Seq::empty(), jump: None, exit: true }
        } else if refused || key is Other {
            Effect { rejected: true, clear_extras: false, retract: Seq::empty(), jump: None, exit: true }
        } else {
            let c = key->Char_0;
            let typed = self.typed.push(c);
            let hit = self.target(typed);
            Effect {
                rejected: false,
                clear_extras: true,
                retract: self.eliminated(c, self.spans.len() as int),
                jump: match hit {
                    Some(i) => Some(self.spans[i]),
                    None => None,
                },
                exit: hit is Some || typed.len() >= 2 || !is_letter(c) || !self.begins_a_label(typed),
            }
        }
    }

    /// The session after `key`.
    pub open spec fn after_key(self, key: Key) -> Session {
        self.after_judged(key, is_refused(key))
    }

    /// What the host is to do after `key`.
    pub open spec fn effect(self, key: Key) -> Effect {
        self.effect_judged(key, is_refused(key))
    }

    /// The session after the mode was left: no overlay stands, and a session that still
    /// awaited keys is aborted.
    pub open spec fn closed(self) -> Session {
        Session {
            phase: if self.phase is Awaiting {
                Phase::Aborted
            } else {
                self.phase
            },
            overlaid: false,
            ..self
        }
    }
}

/// Whether the bytes from `start` up to `end` are a stretch of `text` that cuts no character.
pub open spec fn range_ok(text: Seq<char>, start: int, end: int) -> bool {
    start <= end && on_boundary(text, start) && on_boundary(text, end)
}

/// Whether `spans` are the matches of `pattern` in the bytes from `start` up to `end` of
/// `text`: its words, its lines, or, for an expression of the caller's, what the host found,
/// where that can stand as matches.
pub open spec fn matches_of(
    pattern: Pattern,
    text: Seq<char>,
    start: int,
    end: int,
    found: Option<Vec<Span>>,
    spans: Seq<Span>,
) -> bool {
    match pattern {
        Pattern::Word => words_in(text, start, end, spans),
        Pattern::Line => lines_in(text, start, end, spans),
        Pattern::Custom(_) => found matches Some(v) && v@ == spans && valid_matches(text, start, end, spans),
    }
}

/// A pattern has one list of matches in a range and no other.
pub proof fn lemma_matches_unique(
    pattern: Pattern,
    text: Seq<char>,
    start: int,
    end: int,
    found: Option<Vec<Span>>,
    a: Seq<Span>,
    b: Seq<Span>,
)
    requires
        matches_of(pattern, text, start, end, found, a),
        matches_of(pattern, text, start, end, found, b),
    ensures
        a == b,
{
    match pattern {
        Pattern::Word => lemma_words_unique(text, start, end, a, b),
        Pattern::Line => lemma_lines_unique(text, start, end, a, b),
        Pattern::Custom(_) => {},
    }
}

/// The mode that labels the matches in the visible text and jumps to the one whose label is
/// typed.
#[derive(Debug)]
pub struct Hopper {
    pattern: Pattern,
    ranges: Vec<Span>,
    seq: String,
    phase: Phase,
    overlaid: bool,
}

impl View for Hopper {
    type V = Session;

    closed spec fn view(&self) -> Session {
        Session { spans: self.ranges@, typed: self.seq@, phase: self.phase, overlaid: self.overlaid }
    }
}

impl Clone for Pattern {
    fn clone(&self) -> (p: Self)
        ensures
            p == *self,
    {
        match self {
            Pattern::Word => Pattern::Word,
            Pattern::Line => Pattern::Line,
            Pattern::Custom(regex) => Pattern::Custom(regex.clone()),
        }
    }
}

impl Clone for Hopper {
    fn clone(&self) -> (h: Self)
        ensures
            h@ == self@,
            h.pattern() == self.pattern(),
    {
        proof {
            use_type_invariant(self);
        }
        let mut ranges: Vec<Span> = Vec::new();
        let mut i: usize = 0;
        while i < self.ranges.len()
            invariant
                i <= self.ranges@.len(),
                ranges@ == self.ranges@.take(i as int),
            decreases self.ranges@.len() - i,
        {
            ranges.push(self.ranges[i]);
            proof {
                assert(self.ranges@.take(i as int + 1) =~= self.ranges@.take(i as int).push(self.ranges@[i as int]));
            }
            i += 1;
        }
        proof {
            assert(self.ranges@.take(i as int) =~= self.ranges@);
        }
        Self { pattern: self.pattern.clone(), ranges, seq: self.seq.clone(), phase: self.phase,
            overlaid: self.overlaid }
    }
}

impl Hopper {
    #[verifier::type_invariant]
    spec fn valid(&self) -> bool {
        self@.wf()
    }

    /// What the session looks for.
    pub closed spec fn pattern(&self) -> Pattern {
        self.pattern
    }

    /// A mode that jumps to words.
    pub fn word() -> (h: Self)
        ensures
            h.pattern() is Word,
            h@ == Session::idle(),
    {
        Self { pattern: Pattern::Word, ranges: Vec::new(), seq: String::new(), phase: Phase::Idle,
            overlaid: false }
    }

    /// A mode that jumps to lines.
    pub fn line() -> (h: Self)
        ensures
            h.pattern() is Line,
            h@ == Session::idle(),
    {
        Self { pattern: Pattern::Line, ..Self::word() }
    }

    /// A mode that jumps to the matches of `regex`, which the host searches for.
    pub fn with_regex(regex: &str) -> (h: Self)
        ensures
            h.pattern() matches Pattern::Custom(s) && s@ == regex@,
            h@ == Session::idle(),
    {
        Self { pattern: Pattern::Custom(regex.to_owned()), ..Self::word() }
    }

    /// Enters the mode on `text`, of which the bytes from `start` up to `end` are visible.
    /// `found` is what the host's search gave for an expression of the caller's, `None`
    /// where the host found the expression malformed; words and lines are found here, and
    /// `found` is not looked at. Gives what the host is to install: the backdrop over the
    /// visible range, and a label for each match. On an error nothing is to be installed,
    /// and the session is aborted.
    pub fn on_switch(&mut self, text: &str, start: usize, end: usize,
        found: Option<Vec<Span>>) -> (r: Result<Entry, HopError>)
        ensures
            final(self).pattern() == old(self).pattern(),
            final(self)@.wf(),
            r is Err ==> final(self)@ == Session::refused(),
            r matches Ok(entry) ==> {
                &&& final(self)@ == Session::entered(final(self)@.spans)
                &&& matches_of(old(self).pattern(), text@, start as int, end as int, found,
                    final(self)@.spans)
                &&& entry.backdrop == (Span { start, end })
                &&& overlays_for(text@, final(self)@.spans, entry.overlays@)
            },
            r is Ok <==> range_ok(text@, start as int, end as int) && exists|spans: Seq<Span>| #[trigger]
                matches_of(old(self).pattern(), text@, start as int, end as int, found, spans) && spans.len()
                    <= label_count(spans.len()),
            r == Err::<Entry, HopError>(HopError::BadRange) <==> !range_ok(text@, start as int, end as int),
            r == Err::<Entry, HopError>(HopError::MalformedPattern) <==>
                range_ok(text@, start as int, end as int)
                && old(self).pattern() is Custom && found is None,
            r == Err::<Entry, HopError>(HopError::BadMatches) <==> range_ok(text@, start as int, end as int)
                && old(self).pattern() is Custom && found is Some && !valid_matches(
                text@,
                start as int,
                end as int,
                found->0@,
            ),
            r == Err::<Entry, HopError>(HopError::TooManyMatches) <==>
                range_ok(text@, start as int, end as int)
                && exists|spans: Seq<Span>| #[trigger]
                matches_of(old(self).pattern(), text@, start as int, end as int, found, spans) && spans.len()
                    > label_count(spans.len()),
    {
        proof {
            use_type_invariant(&*self);
        }
        self.phase = Phase::Aborted;
        self.overlaid = false;
        self.ranges = Vec::new();
        self.seq = String::new();
        let page = Decoded::decode(text);
        let (lo, hi) = match (page.find(start), page.find(end)) {
            (Some(lo), Some(hi)) => (lo, hi),
            _ => {
                return Err(HopError::BadRange);
            },
        };
        if start > end {
            return Err(HopError::BadRange);
        }
        proof {
            if lo > hi {
                lemma_offset_increases(page@, hi as int, lo as int);
            }
        }
        let spans = match &self.pattern {
            Pattern::Word => find_words(&page, lo, hi),
            Pattern::Line => find_lines(&page, lo, hi),
            Pattern::Custom(_) => match found {
                None => {
                    return Err(HopError::MalformedPattern);
                },
                Some(v) => {
                    if !check_matches(&page, start, end, &v) {
                        return Err(HopError::BadMatches);
                    }
                    v
                },
            },
        };
        assert(matches_of(self.pattern, text@, start as int, end as int, found, spans@));
        let labels = key_seqs(spans.len());
        if labels.len() < spans.len() {
            proof {
                assert forall|other: Seq<Span>| #[trigger] matches_of(self.pattern, text@, start as int,
                    end as int, found, other) implies other.len() > label_count(other.len()) by {
                    lemma_matches_unique(self.pattern, text@, start as int, end as int, found, spans@, other);
                }
            }
            return Err(HopError::TooManyMatches);
        }
        proof {
            assert forall|other: Seq<Span>| #[trigger] matches_of(self.pattern, text@, start as int,
                end as int, found, other) implies other.len() <= label_count(other.len()) by {
                lemma_matches_unique(self.pattern, text@, start as int, end as int, found, spans@, other);
            }
        }
        let overlays = plan(&page, &spans, &labels);
        proof {
            assert forall|i: int| 0 <= i < spans@.len() implies label_at(spans@.len(), i).len() > 0 by {
                lemma_label_shape(spans@.len(), i);
            }
        }
        self.ranges = spans;
        self.overlaid = true;
        self.phase = Phase::Awaiting;
        Ok(Entry { backdrop: Span { start, end }, overlays })
    }

    /// Takes one key. In `Awaiting`, a key that is no character, or a character that is not
    /// alphabetic, is refused: the user is told, the session is aborted and the mode is
    /// left, with what was typed as it was. An alphabetic character is added to what was
    /// typed, the match whose label is now typed in full is jumped to, the matches whose
    /// labels no longer fit lose their overlays, and the mode is left on a jump, on the
    /// second character, on a character that is no letter of the alphabet, and where no
    /// match is left as a candidate. In any other phase the key changes nothing and the
    /// mode is left.
    pub fn send_key(&mut self, key: Key) -> (out: KeyOutcome)
        ensures
            old(self)@.wf(),
            final(self)@.wf(),
            final(self).pattern() == old(self).pattern(),
            final(self)@ == old(self)@.after_key(key),
            out@ == old(self)@.effect(key),
    {
        let refused = match key {
            Key::Char(c) => !alphabetic(c),
            Key::Other => true,
        };
        self.send_judged_key(key, refused)
    }

    /// Takes one key of which the caller says whether it is refused as label input, and
    /// does what [`Hopper::send_key`] does once it has judged the key. A key that is no
    /// character is refused whatever the caller says.
    pub fn send_judged_key(&mut self, key: Key, refused: bool) -> (out: KeyOutcome)
        ensures
            old(self)@.wf(),
            final(self)@.wf(),
            final(self).pattern() == old(self).pattern(),
            final(self)@ == old(self)@.after_judged(key, refused),
            out@ == old(self)@.effect_judged(key, refused),
    {
        proof {
            use_type_invariant(&*self);
        }
        match self.phase {
            Phase::Awaiting => {},
            _ => {
                return KeyOutcome { rejected: false, clear_extras: false, retract: Vec::new(), jump: None,
                    exit: true };
            },
        }
        let c = match key {
            Key::Char(c) if !refused => c,
            _ => {
                self.phase = Phase::Aborted;
                return KeyOutcome { rejected: true, clear_extras: false, retract: Vec::new(), jump: None,
                    exit: true };
            },
        };
        let ghost before = self@;
        let ghost typed = before.typed.push(c);
        let mut now = self.seq.clone();
        push_char(&mut now, c);
        let seqs = key_seqs(self.ranges.len());
        let mut retract: Vec<usize> = Vec::new();
        let mut jump: Option<Span> = None;
        let mut kept: bool = false;
        let mut i: usize = 0;
        while i < self.ranges.len()
            invariant
                before.wf(),
                before == self@,
                typed == now@,
                typed == before.typed.push(c),
                labels_for(self.ranges@.len() as nat, seqs@),
                i <= self.ranges@.len(),
                retract@ == before.eliminated(c, i as int),
                jump matches Some(s) ==> exists|m: int| 0 <= m < i &&
                    #[trigger] label_at(before.spans.len(), m) == typed && before.spans[m] == s,
                jump is None ==> forall|m: int| 0 <= m < i ==>
                    #[trigger] label_at(before.spans.len(), m) != typed,
                kept <==> exists|m: int| 0 <= m < i &&
                    typed.is_prefix_of(#[trigger] label_at(before.spans.len(), m)),
            decreases self.ranges@.len() - i,
        {
            let label = seqs[i].as_str();
            assert(label@ == before.label(i as int));
            if seqs[i] == now {
                proof {
                    if jump is Some {
                        let m = choose|m: int| 0 <= m < i &&
                            #[trigger] label_at(before.spans.len(), m) == typed && before.spans[m] == jump->0;
                        lemma_labels_prefix_free(before.spans.len(), m, i as int);
                        assert(before.label(m).is_prefix_of(before.label(i as int)));
                    }
                }
                jump = Some(self.ranges[i]);
            }
            let fits = starts_with(label, now.as_str());
            if fits {
                kept = true;
            } else if starts_with(label, self.seq.as_str()) {
                retract.push(self.ranges[i].start);
            }
            proof {
                assert(fits == typed.is_prefix_of(label_at(before.spans.len(), i as int)));
            }
            i += 1;
        }
        let full = self.seq.as_str().unicode_len() >= 1;
        let exit = jump.is_some() || full || !in_alphabet(c) || !kept;
        proof {
            if jump is Some {
                let m = choose|m: int| 0 <= m < i && #[trigger] label_at(before.spans.len(), m) == typed &&
                    before.spans[m] == jump->0;
                let t = before.target(typed)->0;
                if t != m {
                    lemma_labels_prefix_free(before.spans.len(), m, t);
                    assert(before.label(m).is_prefix_of(before.label(t)));
                }
                assert(self.ranges@[m] == jump->0);
            }
        }
        // The phase gives way first: while keys are awaited, at most one letter may be typed.
        self.phase = Phase::Aborted;
        self.seq = now;
        self.phase = match jump {
            Some(s) => Phase::Resolved(s),
            None => if exit {
                Phase::Aborted
            } else {
                Phase::Awaiting
            },
        };
        KeyOutcome { rejected: false, clear_extras: true, retract, jump, exit }
    }

    /// Leaves the mode: after this no overlay of the session stands, and the host is to take
    /// away all that it still shows of it. A session that still awaited keys is aborted.
    pub fn before_exit(&mut self)
        ensures
            final(self)@.wf(),
            final(self).pattern() == old(self).pattern(),
            final(self)@ == old(self)@.closed(),
    {
        proof {
            use_type_invariant(&*self);
        }
        match self.phase {
            Phase::Awaiting => {
                self.phase = Phase::Aborted;
            },
            _ => {},
        }
        self.overlaid = false;
    }

    /// The matches of the session, in the order of the text.
    pub fn ranges(&self) -> (r: &Vec<Span>)
        ensures
            r@ == self@.spans,
    {
        &self.ranges
    }

    /// What was typed so far.
    pub fn seq(&self) -> (s: &String)
        ensures
            s@ == self@.typed,
    {
        &self.seq
    }

    /// Where the session stands.
    pub fn phase(&self) -> (p: Phase)
        ensures
            p == self@.phase,
    {
        self.phase
    }

    /// Whether overlays of the session stand in the host.
    pub fn overlaid(&self) -> (b: bool)
        ensures
            b == self@.overlaid,
    {
        self.overlaid
    }

    /// The expression that the host is to search for, where the session looks for one of
    /// the caller's.
    pub fn custom_regex(&self) -> (r: Option<&String>)
        ensures
            match self.pattern() {
                Pattern::Custom(s) => r matches Some(t) && t@ == s@,
                _ => r is None,
            },
    {
        match &self.pattern {
            Pattern::Custom(s) => Some(s),
            _ => None,
        }
    }
}

/// Tells whether `s` begins with `prefix`.
pub fn starts_with(s: &str, prefix: &str) -> (b: bool)
    ensures
        b == prefix@.is_prefix_of(s@),
{
    let n = prefix.unicode_len();
    if n > s.unicode_len() {
        return false;
    }
    let mut i: usize = 0;
    while i < n
        invariant
            n == prefix@.len(),
            n <= s@.len(),
            i <= n,
            forall|k: int| 0 <= k < i ==> s@[k] == prefix@[k],
        decreases n - i,
    {
        if s.get_char(i) != prefix.get_char(i) {
            assert(s@.subrange(0, n as int)[i as int] != prefix@[i as int]);
            return false;
        }
        i += 1;
    }
    assert(prefix@ =~= s@.subrange(0, n as int));
    true
}

} // verus!
