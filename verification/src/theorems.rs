//! What holds of every session, proved over the mathematical model.

use crate::labels::{
    is_alphabetic, is_letter, label_at, label_count, lemma_label_shape, lemma_labels_prefix_free,
};
use crate::locate::{in_order, Span};
use crate::session::{is_refused, Key, Phase, Session};
use vstd::prelude::*;

verus! {

/// A key leaves a session well formed.
pub proof fn lemma_key_keeps_wf(s: Session, key: Key)
    requires
        s.wf(),
    ensures
        s.after_key(key).wf(),
{
    let after = s.after_key(key);
    if s.phase is Awaiting {
        if let Key::Char(c) = key {
            let typed = s.typed.push(c);
            if let Some(i) = s.target(typed) {
                assert(after.spans[i] == s.spans[i]);
            } else if after.phase is Awaiting {
                assert(after.typed == typed && after.spans == s.spans);
                assert(s.begins_a_label(typed));
                assert(after.begins_a_label(after.typed));
            }
        }
    }
}

/// Matches in order, with labels enough for them, make a well formed session when the mode
/// is entered.
pub proof fn lemma_entered_is_wf(spans: Seq<Span>)
    requires
        in_order(spans),
        spans.len() <= label_count(spans.len()),
    ensures
        Session::entered(spans).wf(),
{
    assert forall|i: int| 0 <= i < spans.len() implies label_at(spans.len(), i).len() > 0 by {
        lemma_label_shape(spans.len(), i);
    }
}

/// When the mode has been entered every match is a candidate and shows its overlay.
pub proof fn lemma_entered_shows_all(spans: Seq<Span>, i: int)
    requires
        0 <= i < spans.len(),
    ensures
        Session::entered(spans).live(i),
        Session::entered(spans).shown(i),
{
    let s = Session::entered(spans);
    assert(s.typed =~= s.label(i).subrange(0, 0));
}

/// The candidates only become fewer: a match that is a candidate after a key was one before.
pub proof fn lemma_candidates_shrink(s: Session, key: Key, i: int)
    requires
        s.wf(),
        s.after_key(key).live(i),
    ensures
        s.live(i),
{
    let t = s.after_key(key);
    if t.typed != s.typed {
        let c = key->Char_0;
        assert(t.typed == s.typed.push(c));
        assert(s.typed =~= t.typed.subrange(0, s.typed.len() as int));
        assert(t.typed =~= s.label(i).subrange(0, t.typed.len() as int));
        assert(s.typed =~= s.label(i).subrange(0, s.typed.len() as int));
    }
}

/// Typing the letters of the label of match `i`, one by one, from a session that has just
/// been entered, jumps to match `i`: at the only letter of a label of one, and for a
/// label of two at the second letter, the first having left the session waiting with match
/// `i` still shown.
pub proof fn lemma_typing_a_label_resolves(s: Session, i: int)
    requires
        s.wf(),
        s.phase is Awaiting,
        s.typed.len() == 0,
        0 <= i < s.spans.len(),
    ensures
        ({
            let label = s.label(i);
            let k0 = Key::Char(label[0]);
            let first = s.after_key(k0);
            if label.len() == 1 {
                &&& s.effect(k0).jump == Some(s.spans[i])
                &&& s.effect(k0).exit
                &&& first.phase == Phase::Resolved(s.spans[i])
            } else {
                let k1 = Key::Char(label[1]);
                &&& s.effect(k0).jump is None
                &&& !s.effect(k0).exit
                &&& first.phase is Awaiting
                &&& first.shown(i)
                &&& first.effect(k1).jump == Some(s.spans[i])
                &&& first.effect(k1).exit
                &&& first.after_key(k1).phase == Phase::Resolved(s.spans[i])
            }
        }),
{
    let n = s.spans.len();
    let label = s.label(i);
    lemma_label_shape(n, i);
    let t0 = s.typed.push(label[0]);
    assert(s.typed =~= Seq::<char>::empty());
    assert(t0 =~= seq![label[0]]);
    if label.len() == 1 {
        assert(t0 =~= label);
        lemma_target_is(s, t0, i);
    } else {
        assert forall|m: int| 0 <= m < n implies s.label(m) != t0 by {
            if s.label(m) == t0 {
                assert(t0 =~= label.subrange(0, 1));
                lemma_labels_prefix_free(n, m, i);
            }
        }
        let first = s.after_key(Key::Char(label[0]));
        assert(first.typed == t0);
        assert(t0 =~= label.subrange(0, 1));
        let t1 = first.typed.push(label[1]);
        assert(t1 =~= label);
        lemma_target_is(first, t1, i);
    }
}

/// Where the label of match `i` is `typed`, match `i` is the target of `typed`.
pub proof fn lemma_target_is(s: Session, typed: Seq<char>, i: int)
    requires
        s.spans.len() <= label_count(s.spans.len()),
        0 <= i < s.spans.len(),
        s.label(i) == typed,
    ensures
        s.target(typed) == Some(i),
{
    let t = s.target(typed)->0;
    if t != i {
        lemma_labels_prefix_free(s.spans.len(), t, i);
        assert(s.label(t).is_prefix_of(s.label(i)));
    }
}

/// The positions at which overlays are taken away after a character are the starts of the
/// matches whose candidacy the character ends, and of no other match.
pub proof fn lemma_retracts_what_is_dropped(s: Session, c: char, i: int)
    requires
        s.wf(),
        0 <= i < s.spans.len(),
    ensures
        s.eliminated(c, s.spans.len() as int).contains(s.spans[i].start) <==> s.drops(c, i),
{
    lemma_eliminated_members(s, c, s.spans.len() as int);
    if s.eliminated(c, s.spans.len() as int).contains(s.spans[i].start) && !s.drops(c, i) {
        let m = choose|m: int| 0 <= m < s.spans.len() && s.drops(c, m) &&
            s.spans[m].start == s.spans[i].start;
        if m < i {
            assert(s.spans[m].end <= s.spans[i].start);
        } else if i < m {
            assert(s.spans[i].end <= s.spans[m].start);
        }
    }
}

proof fn lemma_eliminated_members(s: Session, c: char, n: int)
    requires
        0 <= n <= s.spans.len(),
    ensures
        forall|i: int| 0 <= i < n && s.drops(c, i) ==>
            s.eliminated(c, n).contains(#[trigger] s.spans[i].start),
        forall|p: usize| #[trigger] s.eliminated(c, n).contains(p) ==> exists|m: int| 0 <= m < n &&
            s.drops(c, m) && s.spans[m].start == p,
    decreases n,
{
    if n > 0 {
        lemma_eliminated_members(s, c, n - 1);
        let prev = s.eliminated(c, n - 1);
        let cur = s.eliminated(c, n);
        if s.drops(c, n - 1) {
            assert(cur == prev.push(s.spans[n - 1].start));
            assert(cur[prev.len() as int] == s.spans[n - 1].start);
            assert forall|i: int| 0 <= i < n && s.drops(c, i) implies
                cur.contains(#[trigger] s.spans[i].start) by {
                if i < n - 1 {
                    let k = choose|k: int| 0 <= k < prev.len() && prev[k] == s.spans[i].start;
                    assert(cur[k] == s.spans[i].start);
                }
            }
            assert forall|p: usize| #[trigger] cur.contains(p) implies exists|m: int| 0 <= m < n &&
                s.drops(c, m) && s.spans[m].start == p by {
                let k = choose|k: int| 0 <= k < cur.len() && cur[k] == p;
                if k < prev.len() {
                    assert(prev[k] == p);
                    assert(prev.contains(p));
                } else {
                    assert(s.drops(c, n - 1) && s.spans[n - 1].start == p);
                }
            }
        }
    }
}

/// After an alphabetic character, in a session that awaits keys, the overlays that stand
/// are those of the matches whose labels begin with what is now typed: the others that stood
/// have their positions among those to take away, and the ones that fit are left alone.
pub proof fn lemma_key_narrows(s: Session, c: char, i: int)
    requires
        s.wf(),
        s.phase is Awaiting,
        is_alphabetic(c),
        0 <= i < s.spans.len(),
    ensures
        ({
            let key = Key::Char(c);
            let after = s.after_key(key);
            let fits = s.typed.push(c).is_prefix_of(s.label(i));
            &&& after.shown(i) <==> s.shown(i) && fits
            &&& s.effect(key).retract.contains(s.spans[i].start) <==> s.shown(i) && !fits
        }),
{
    lemma_retracts_what_is_dropped(s, c, i);
    let after = s.after_key(Key::Char(c));
    if after.live(i) {
        lemma_candidates_shrink(s, Key::Char(c), i);
    }
}

/// Every letter of the alphabet is label input; of the other ASCII characters only the
/// capital letters are; and a key that is no character never is.
pub proof fn lemma_label_input(c: char)
    ensures
        is_letter(c) ==> !is_refused(Key::Char(c)),
        (c as u32) < 0x80 ==> (is_refused(Key::Char(c)) <==> !(is_letter(c) || 'A' <= c <= 'Z')),
        is_refused(Key::Other),
{
}

/// A key that is no label input, be it no character or a character that is not alphabetic,
/// ends a session that awaits keys at once: the user is told, the mode is left without a
/// jump, nothing is added to what was typed, and no overlay is taken away before the mode
/// is left.
pub proof fn lemma_refused_key_aborts(s: Session, key: Key)
    requires
        s.phase is Awaiting,
        is_refused(key),
    ensures
        s.effect(key).rejected,
        s.effect(key).exit,
        s.effect(key).jump is None,
        !s.effect(key).clear_extras,
        s.effect(key).retract.len() == 0,
        s.after_key(key) == (Session { phase: Phase::Aborted, ..s }),
{
}

/// A character that is no letter of the alphabet ends a session that awaits keys without a
/// jump, and once the mode is left no overlay stands. The user is told of refused input
/// exactly where the character is not alphabetic; an alphabetic one is added to what was
/// typed and leaves no match a candidate.
pub proof fn lemma_foreign_character_aborts(s: Session, c: char)
    requires
        s.wf(),
        s.phase is Awaiting,
        !is_letter(c),
    ensures
        s.effect(Key::Char(c)).exit,
        s.effect(Key::Char(c)).jump is None,
        s.effect(Key::Char(c)).rejected <==> !is_alphabetic(c),
        s.after_key(Key::Char(c)).phase is Aborted,
        forall|i: int| !s.after_key(Key::Char(c)).closed().shown(i),
        !s.after_key(Key::Char(c)).closed().overlaid,
        is_alphabetic(c) ==> forall|i: int| !s.after_key(Key::Char(c)).live(i),
        is_alphabetic(c) ==> forall|i: int| s.live(i) ==> s.drops(c, i),
{
    let typed = s.typed.push(c);
    let n = s.spans.len();
    assert forall|i: int| 0 <= i < n implies !typed.is_prefix_of(s.label(i)) by {
        lemma_label_shape(n, i);
        if typed.is_prefix_of(s.label(i)) {
            let k = typed.len() - 1;
            assert(typed[k] == c);
            assert(s.label(i).subrange(0, typed.len() as int)[k] == s.label(i)[k]);
        }
    }
    assert forall|i: int| 0 <= i < n implies s.label(i) != typed by {
        assert(!typed.is_prefix_of(s.label(i)));
        if s.label(i) == typed {
            assert(typed =~= s.label(i).subrange(0, typed.len() as int));
        }
    }
    if is_alphabetic(c) {
        let after = s.after_key(Key::Char(c));
        assert(after.typed == typed && after.spans == s.spans);
        assert forall|i: int| !after.live(i) by {
            if 0 <= i < n {
                assert(!typed.is_prefix_of(s.label(i)));
            }
        }
    }
}

/// A match is left as a candidate exactly where what is typed begins some label.
pub proof fn lemma_candidate_left(s: Session)
    ensures
        s.begins_a_label(s.typed) <==> exists|i: int| s.live(i),
{
    if s.begins_a_label(s.typed) {
        let i = choose|i: int| 0 <= i < s.spans.len() &&
            s.typed.is_prefix_of(#[trigger] label_at(s.spans.len(), i));
        assert(s.live(i));
    }
    if exists|i: int| s.live(i) {
        let i = choose|i: int| s.live(i);
        assert(s.typed.is_prefix_of(label_at(s.spans.len(), i)));
    }
}

/// A key that leaves no match a candidate ends the session: the host is told to leave the
/// mode, and unless the key was refused or typed a label in full the session is aborted
/// without a jump. So a session goes on awaiting keys only while some match is a candidate.
pub proof fn lemma_no_candidate_ends(s: Session, key: Key)
    requires
        s.wf(),
        s.phase is Awaiting,
        forall|i: int| !s.after_key(key).live(i),
    ensures
        s.effect(key).exit,
        s.effect(key).jump is None,
        s.after_key(key).phase is Aborted,
{
    let after = s.after_key(key);
    lemma_candidate_left(after);
    if !is_refused(key) {
        let c = key->Char_0;
        let typed = s.typed.push(c);
        assert(after.typed == typed && after.spans == s.spans);
        assert(!s.begins_a_label(typed));
        if let Some(i) = s.target(typed) {
            assert(typed.is_prefix_of(label_at(s.spans.len(), i))) by {
                assert(typed =~= label_at(s.spans.len(), i).subrange(0, typed.len() as int));
            }
        }
    }
}

/// A session that goes on awaiting keys after a key has a match left as a candidate.
pub proof fn lemma_awaiting_keeps_a_candidate(s: Session, key: Key)
    requires
        s.wf(),
        s.phase is Awaiting,
        s.after_key(key).phase is Awaiting,
    ensures
        exists|i: int| s.after_key(key).live(i),
        !s.effect(key).exit,
{
    let after = s.after_key(key);
    lemma_candidate_left(after);
    let c = key->Char_0;
    assert(after.typed == s.typed.push(c) && after.spans == s.spans);
}

/// With no match on screen the first key ends the session, whatever the key.
pub proof fn lemma_no_match_ends_at_the_first_key(s: Session, key: Key)
    requires
        s.wf(),
        s.phase is Awaiting,
        s.spans.len() == 0,
    ensures
        s.effect(key).exit,
        s.effect(key).jump is None,
        s.effect(key).retract.len() == 0,
        s.after_key(key).phase is Aborted,
{
    if !is_refused(key) {
        let c = key->Char_0;
        assert(s.eliminated(c, 0).len() == 0);
    }
}

/// No session awaits a third key: the second key always tells the host to leave the mode.
pub proof fn lemma_two_keys_end(s: Session, first: Key, second: Key)
    requires
        s.wf(),
    ensures
        s.after_key(first).effect(second).exit,
        !(s.after_key(first).after_key(second).phase is Awaiting),
{
}

/// Whenever the host is told to leave the mode, the session no longer awaits keys; and
/// whenever it is not told so, the session does.
pub proof fn lemma_exit_is_final(s: Session, key: Key)
    requires
        s.wf(),
    ensures
        s.effect(key).exit <==> !(s.after_key(key).phase is Awaiting),
        s.effect(key).jump matches Some(span) ==> s.after_key(key).phase == Phase::Resolved(span) &&
            s.spans.contains(span),
{
    if s.phase is Awaiting {
        if let Key::Char(c) = key {
            let typed = s.typed.push(c);
            if let Some(i) = s.target(typed) {
                assert(s.spans[i] == s.spans[i]);
            }
        }
    }
}

/// Leaving the mode takes every overlay away, however the session ended, and leaving it
/// again changes nothing.
pub proof fn lemma_exit_clears(s: Session)
    ensures
        !s.closed().overlaid,
        forall|i: int| !s.closed().shown(i),
        !(s.closed().phase is Awaiting),
        s.closed().closed() == s.closed(),
        s.wf() ==> s.closed().wf(),
{
}

} // verus!
