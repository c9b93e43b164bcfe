use duat_core::text::RegexHaystack;
use hop::{key_seqs, HopError, Hopper, Key, Phase, Span};

fn span(start: usize, end: usize) -> Span {
    Span { start, end }
}

/// A text of `count` words of two letters, one space between them.
fn many_words(count: usize) -> String {
    vec!["xy"; count].join(" ")
}

fn entered(count: usize) -> Hopper {
    let text = many_words(count);
    let mut hopper = Hopper::word();
    let entry = hopper.on_switch(&text, 0, text.len(), None).unwrap();
    assert_eq!(entry.overlays.len(), count);
    hopper
}

fn host(text: &str, pattern: &str, start: usize, end: usize) -> Option<Vec<Span>> {
    let owned = String::from(text);
    match owned.try_search(pattern) {
        Ok(found) => Some(found.range(start..end).map(|r| span(r.start, r.end)).collect()),
        Err(_) => None,
    }
}

#[test]
fn a_new_mode_is_idle() {
    for hopper in [Hopper::word(), Hopper::line(), Hopper::with_regex("a+")] {
        assert_eq!(hopper.phase(), Phase::Idle);
        assert!(hopper.ranges().is_empty());
        assert!(hopper.seq().is_empty());
        assert!(!hopper.overlaid());
    }
    assert_eq!(Hopper::word().custom_regex(), None);
    assert_eq!(Hopper::line().custom_regex(), None);
    assert_eq!(Hopper::with_regex("a+").custom_regex(), Some(&String::from("a+")));
}

#[test]
fn foo_bar_baz_by_word_and_the_key_c() {
    let mut hopper = Hopper::word();
    let entry = hopper.on_switch("foo bar baz", 0, 11, None).unwrap();
    assert_eq!(entry.backdrop, span(0, 11));
    let overlays = entry.overlays;
    assert_eq!(hopper.ranges(), &vec![span(0, 3), span(4, 7), span(8, 11)]);
    let labels: Vec<&str> = overlays.iter().map(|o| o.label.as_str()).collect();
    assert_eq!(labels, vec!["a", "b", "c"]);
    let starts: Vec<usize> = overlays.iter().map(|o| o.start).collect();
    assert_eq!(starts, vec![0, 4, 8]);
    let ends: Vec<usize> = overlays.iter().map(|o| o.conceal_end).collect();
    assert_eq!(ends, vec![1, 5, 9]);
    assert_eq!(hopper.phase(), Phase::Awaiting);
    assert!(hopper.overlaid());

    let out = hopper.send_key(Key::Char('c'));
    assert_eq!(out.jump, Some(span(8, 11)));
    assert!(out.exit);
    assert!(out.clear_extras);
    assert!(!out.rejected);
    assert_eq!(out.retract, vec![0, 4]);
    assert_eq!(hopper.phase(), Phase::Resolved(span(8, 11)));
    assert_eq!(hopper.seq(), "c");

    hopper.before_exit();
    assert!(!hopper.overlaid());
    assert_eq!(hopper.phase(), Phase::Resolved(span(8, 11)));
}

#[test]
fn thirty_matches_take_two_keys_from_the_twenty_sixth_on() {
    let text = many_words(30);
    let mut hopper = Hopper::word();
    let overlays = hopper.on_switch(&text, 0, text.len(), None).unwrap().overlays;
    assert_eq!(overlays.len(), 30);
    assert_eq!(overlays[0].label, "b");
    assert_eq!(overlays[24].label, "z");
    assert_eq!(overlays[25].label, "aa");
    assert_eq!(overlays[29].label, "ae");
    assert_eq!(overlays[25].conceal_end, overlays[25].start + 2);
    assert_eq!(overlays[0].conceal_end, overlays[0].start + 1);

    let out = hopper.send_key(Key::Char('a'));
    assert_eq!(out.jump, None);
    assert!(!out.exit);
    let single: Vec<usize> = (0..25).map(|i| 3 * i).collect();
    assert_eq!(out.retract, single);
    assert_eq!(hopper.phase(), Phase::Awaiting);

    let out = hopper.send_key(Key::Char('a'));
    assert_eq!(out.jump, Some(span(75, 77)));
    assert!(out.exit);
    assert_eq!(out.retract, vec![78, 81, 84, 87]);
    assert_eq!(hopper.phase(), Phase::Resolved(span(75, 77)));
}

#[test]
fn typing_any_label_jumps_to_its_match() {
    for count in [1usize, 3, 25, 26, 27, 30, 51, 52, 76] {
        let labels = key_seqs(count);
        for i in 0..count {
            let mut hopper = entered(count);
            let target = hopper.ranges()[i];
            let keys: Vec<char> = labels[i].chars().collect();
            let mut out = hopper.send_key(Key::Char(keys[0]));
            if keys.len() == 2 {
                assert_eq!(out.jump, None);
                assert!(!out.exit);
                assert!(!out.retract.contains(&target.start));
                out = hopper.send_key(Key::Char(keys[1]));
            }
            assert_eq!(out.jump, Some(target), "label {i} of {count}");
            assert!(out.exit);
            assert_eq!(hopper.phase(), Phase::Resolved(target));
        }
    }
}

#[test]
fn a_shared_first_letter_keeps_its_candidates_and_drops_the_rest() {
    let count = 60;
    let labels = key_seqs(count);
    let mut hopper = entered(count);
    let spans = hopper.ranges().clone();
    let out = hopper.send_key(Key::Char('b'));
    assert!(!out.exit);
    assert_eq!(out.jump, None);
    for i in 0..count {
        let kept = labels[i].starts_with('b');
        assert_eq!(out.retract.contains(&spans[i].start), !kept, "match {i}");
    }
    assert_eq!(labels[50], "ba");
    assert_eq!(labels[59], "bj");
    assert_eq!(out.retract.len(), 50);
}

#[test]
fn overlays_already_taken_away_are_not_named_again() {
    let mut hopper = entered(30);
    let first = hopper.send_key(Key::Char('a'));
    assert_eq!(first.retract.len(), 25);
    let second = hopper.send_key(Key::Char('z'));
    assert_eq!(second.jump, None);
    assert!(second.exit);
    assert_eq!(second.retract, vec![75, 78, 81, 84, 87]);
    assert_eq!(hopper.phase(), Phase::Aborted);
    assert_eq!(hopper.seq(), "az");
}

#[test]
fn a_character_that_is_not_alphabetic_is_refused() {
    for c in ['1', ' ', '{', '`', '\n', '-', '€', '\u{a0}', '١', '—', '🙂'] {
        let mut hopper = entered(3);
        let out = hopper.send_key(Key::Char(c));
        assert!(out.rejected, "{c:?}");
        assert!(out.exit);
        assert_eq!(out.jump, None);
        assert!(!out.clear_extras);
        assert!(out.retract.is_empty());
        assert_eq!(hopper.phase(), Phase::Aborted);
        assert!(hopper.seq().is_empty());
        assert!(hopper.overlaid());
        hopper.before_exit();
        assert!(!hopper.overlaid());
    }
}

#[test]
fn an_alphabetic_character_outside_the_alphabet_aborts_unreported() {
    for c in ['A', 'Z', 'é', 'λ', 'Ж', '日', 'ß'] {
        let mut hopper = entered(3);
        let out = hopper.send_key(Key::Char(c));
        assert!(!out.rejected, "{c:?}");
        assert!(out.exit);
        assert_eq!(out.jump, None);
        assert!(out.clear_extras);
        assert_eq!(out.retract, vec![0, 3, 6]);
        assert_eq!(hopper.phase(), Phase::Aborted);
        assert_eq!(hopper.seq(), &c.to_string());
        hopper.before_exit();
        assert!(!hopper.overlaid());
    }
}

#[test]
fn a_character_that_is_not_alphabetic_is_refused_as_second_key_too() {
    let mut hopper = entered(30);
    assert!(!hopper.send_key(Key::Char('a')).exit);
    let out = hopper.send_key(Key::Char('7'));
    assert!(out.rejected);
    assert!(out.exit);
    assert_eq!(out.jump, None);
    assert!(out.retract.is_empty());
    assert_eq!(hopper.phase(), Phase::Aborted);
    assert_eq!(hopper.seq(), "a");
}

#[test]
fn an_alphabetic_character_outside_the_alphabet_aborts_as_second_key_too() {
    let mut hopper = entered(30);
    assert!(!hopper.send_key(Key::Char('a')).exit);
    let out = hopper.send_key(Key::Char('B'));
    assert!(!out.rejected);
    assert!(out.exit);
    assert_eq!(out.jump, None);
    assert_eq!(out.retract, vec![75, 78, 81, 84, 87]);
    assert_eq!(hopper.phase(), Phase::Aborted);
    assert_eq!(hopper.seq(), "aB");
}

#[test]
fn every_letter_of_the_alphabet_is_label_input() {
    for c in 'a'..='z' {
        let mut hopper = entered(3);
        let out = hopper.send_key(Key::Char(c));
        assert!(!out.rejected, "{c:?}");
        assert!(out.clear_extras);
        assert_eq!(hopper.seq(), &c.to_string());
    }
}

#[test]
fn a_key_judged_by_the_caller_is_taken_as_judged() {
    let mut hopper = entered(3);
    let out = hopper.send_judged_key(Key::Char('b'), true);
    assert!(out.rejected && out.exit);
    assert_eq!(out.jump, None);
    assert!(hopper.seq().is_empty());
    assert_eq!(hopper.phase(), Phase::Aborted);

    let mut hopper = entered(3);
    let out = hopper.send_judged_key(Key::Char('b'), false);
    assert!(!out.rejected && out.exit);
    assert_eq!(out.jump, Some(span(3, 5)));
    assert_eq!(hopper.phase(), Phase::Resolved(span(3, 5)));

    let mut hopper = entered(3);
    let out = hopper.send_judged_key(Key::Char('1'), false);
    assert!(!out.rejected && out.exit);
    assert_eq!(out.retract, vec![0, 3, 6]);
    assert_eq!(hopper.seq(), "1");

    let mut hopper = entered(3);
    let out = hopper.send_judged_key(Key::Other, false);
    assert!(out.rejected && out.exit);
    assert!(out.retract.is_empty());
    assert_eq!(hopper.phase(), Phase::Aborted);
}

#[test]
fn a_key_that_is_no_character_is_refused() {
    let mut hopper = entered(3);
    let out = hopper.send_key(Key::Other);
    assert!(out.rejected);
    assert!(out.exit);
    assert!(!out.clear_extras);
    assert_eq!(out.jump, None);
    assert!(out.retract.is_empty());
    assert_eq!(hopper.phase(), Phase::Aborted);
    assert!(hopper.seq().is_empty());
    assert!(hopper.overlaid());
    hopper.before_exit();
    assert!(!hopper.overlaid());
}

#[test]
fn a_letter_that_begins_no_label_in_use_ends_the_session() {
    let mut hopper = entered(3);
    let out = hopper.send_key(Key::Char('x'));
    assert!(out.exit);
    assert!(!out.rejected);
    assert!(out.clear_extras);
    assert_eq!(out.jump, None);
    assert_eq!(out.retract, vec![0, 3, 6]);
    assert_eq!(hopper.phase(), Phase::Aborted);
    assert_eq!(hopper.seq(), "x");
    let out = hopper.send_key(Key::Char('a'));
    assert!(out.exit);
    assert_eq!(out.jump, None);
    assert!(out.retract.is_empty());
    assert_eq!(hopper.phase(), Phase::Aborted);
    assert_eq!(hopper.seq(), "x");
}

#[test]
fn a_letter_that_begins_a_label_in_use_keeps_the_session_waiting() {
    // With 26 matches the labels in use are b to z and aa.
    let mut hopper = entered(26);
    let out = hopper.send_key(Key::Char('a'));
    assert!(!out.exit);
    assert_eq!(out.retract.len(), 25);
    assert_eq!(hopper.phase(), Phase::Awaiting);
    let out = hopper.send_key(Key::Char('b'));
    assert!(out.exit);
    assert_eq!(out.jump, None);
    assert_eq!(out.retract, vec![75]);
    assert_eq!(hopper.phase(), Phase::Aborted);

    // With 52 matches the labels in use are c to z, aa to az, ba and bb.
    let mut hopper = entered(52);
    let out = hopper.send_key(Key::Char('b'));
    assert!(!out.exit);
    assert_eq!(out.retract.len(), 50);
    assert_eq!(hopper.phase(), Phase::Awaiting);

    // With 50 matches b is a label of its own.
    let mut hopper = entered(50);
    let out = hopper.send_key(Key::Char('b'));
    assert!(out.exit && !out.rejected);
    assert_eq!(out.jump, Some(span(0, 2)));
}

#[test]
fn only_letters_without_a_label_in_use_end_the_session_unresolved() {
    for count in [0usize, 1, 3, 10, 25] {
        for (place, c) in ('a'..='z').enumerate() {
            let mut hopper = entered(count);
            let out = hopper.send_key(Key::Char(c));
            assert!(out.exit, "{c:?} with {count} matches");
            assert_eq!(out.jump.is_some(), place < count);
            let phase = hopper.phase();
            assert_eq!(phase == Phase::Aborted, place >= count);
        }
    }
    for count in [26usize, 30, 52, 76] {
        for c in 'a'..='z' {
            let mut hopper = entered(count);
            let out = hopper.send_key(Key::Char(c));
            assert_ne!(hopper.phase(), Phase::Aborted, "{c:?} with {count} matches");
            assert_eq!(out.exit, out.jump.is_some());
        }
    }
}

#[test]
fn no_matches_is_no_error_and_the_first_key_ends_the_session() {
    for key in [Key::Char('a'), Key::Char('z'), Key::Char('A'), Key::Char('1'), Key::Other] {
        let mut hopper = Hopper::word();
        let entry = hopper.on_switch(" \n\t ", 0, 4, None).unwrap();
        assert!(entry.overlays.is_empty());
        assert_eq!(entry.backdrop, span(0, 4));
        assert_eq!(hopper.phase(), Phase::Awaiting);
        assert!(hopper.overlaid());
        let out = hopper.send_key(key);
        assert!(out.exit, "{key:?}");
        assert_eq!(out.jump, None);
        assert!(out.retract.is_empty());
        assert_eq!(hopper.phase(), Phase::Aborted);
        hopper.before_exit();
        assert!(!hopper.overlaid());
    }
    let mut hopper = Hopper::line();
    assert!(hopper.on_switch("", 0, 0, None).unwrap().overlays.is_empty());
    let out = hopper.send_key(Key::Char('a'));
    assert!(out.exit && !out.rejected);
    assert_eq!(hopper.phase(), Phase::Aborted);
}

#[test]
fn keys_after_the_end_change_nothing() {
    let mut hopper = entered(3);
    hopper.send_key(Key::Char('b'));
    assert_eq!(hopper.phase(), Phase::Resolved(span(3, 5)));
    for key in [Key::Char('a'), Key::Other, Key::Char('1')] {
        let out = hopper.send_key(key);
        assert!(out.exit);
        assert!(!out.rejected && !out.clear_extras);
        assert_eq!(out.jump, None);
        assert!(out.retract.is_empty());
        assert_eq!(hopper.phase(), Phase::Resolved(span(3, 5)));
        assert_eq!(hopper.seq(), "b");
    }
    let mut idle = Hopper::line();
    assert!(idle.send_key(Key::Char('a')).exit);
    assert_eq!(idle.phase(), Phase::Idle);
}

#[test]
fn leaving_twice_is_leaving_once() {
    let mut hopper = entered(5);
    hopper.before_exit();
    assert_eq!(hopper.phase(), Phase::Aborted);
    assert!(!hopper.overlaid());
    let spans = hopper.ranges().clone();
    hopper.before_exit();
    assert_eq!(hopper.phase(), Phase::Aborted);
    assert!(!hopper.overlaid());
    assert_eq!(hopper.ranges(), &spans);
    let mut idle = Hopper::word();
    idle.before_exit();
    assert_eq!(idle.phase(), Phase::Idle);
    assert!(!idle.overlaid());
}

#[test]
fn entering_again_starts_afresh() {
    let mut hopper = entered(30);
    hopper.send_key(Key::Char('a'));
    hopper.before_exit();
    let overlays = hopper.on_switch("one two", 0, 7, None).unwrap().overlays;
    assert_eq!(overlays.len(), 2);
    assert!(hopper.seq().is_empty());
    assert_eq!(hopper.phase(), Phase::Awaiting);
    assert_eq!(hopper.send_key(Key::Char('b')).jump, Some(span(4, 7)));
}

#[test]
fn lines_are_labelled_by_the_line_mode() {
    let text = "first line\n\n  second\nx\nlast";
    let mut hopper = Hopper::line();
    let overlays = hopper.on_switch(text, 0, text.len(), None).unwrap().overlays;
    assert_eq!(hopper.ranges(), &vec![span(0, 10), span(14, 20), span(23, 27)]);
    let labels: Vec<&str> = overlays.iter().map(|o| o.label.as_str()).collect();
    assert_eq!(labels, vec!["a", "b", "c"]);
    assert_eq!(hopper.send_key(Key::Char('b')).jump, Some(span(14, 20)));
}

#[test]
fn only_the_visible_range_is_searched() {
    let mut hopper = Hopper::word();
    let entry = hopper.on_switch("foo bar baz", 4, 7, None).unwrap();
    assert_eq!(hopper.ranges(), &vec![span(4, 7)]);
    assert_eq!(entry.backdrop, span(4, 7));
    assert_eq!(entry.overlays[0].label, "a");
}

#[test]
fn a_label_hides_as_many_characters_as_it_has_letters() {
    let mut hopper = Hopper::word();
    let overlays = hopper.on_switch("éx ñandú", 0, 11, None).unwrap().overlays;
    assert_eq!(hopper.ranges(), &vec![span(0, 3), span(4, 11)]);
    assert_eq!(overlays[0].conceal_end, 2);
    assert_eq!(overlays[1].conceal_end, 6);
}

#[test]
fn a_bad_visible_range_is_an_error() {
    let cases = [("foo", 2, 1), ("foo", 0, 4), ("foo", 4, 5), ("né", 2, 3), ("né", 0, 2)];
    for (text, start, end) in cases {
        for mut hopper in [Hopper::word(), Hopper::line(), Hopper::with_regex("o")] {
            let got = hopper.on_switch(text, start, end, Some(vec![]));
            assert_eq!(got.unwrap_err(), HopError::BadRange, "{text:?} from {start} to {end}");
            assert_eq!(hopper.phase(), Phase::Aborted);
            assert!(!hopper.overlaid());
            assert!(hopper.ranges().is_empty());
        }
    }
}

#[test]
fn a_malformed_expression_is_an_error() {
    let mut hopper = Hopper::with_regex("(unclosed");
    let found = host("foo", "(unclosed", 0, 3);
    assert_eq!(found, None);
    assert_eq!(hopper.on_switch("foo", 0, 3, found).unwrap_err(), HopError::MalformedPattern);
    assert_eq!(hopper.phase(), Phase::Aborted);
    assert!(!hopper.overlaid());
    let out = hopper.send_key(Key::Char('a'));
    assert!(out.exit);
    assert_eq!(out.jump, None);
}

#[test]
fn matches_that_cannot_stand_are_an_error() {
    let bad = [
        vec![span(0, 4), span(3, 7)],
        vec![span(4, 7), span(0, 3)],
        vec![span(2, 2)],
        vec![span(8, 12)],
        vec![span(0, 3), span(0, 3)],
    ];
    for found in bad {
        let mut hopper = Hopper::with_regex("...");
        let got = hopper.on_switch("foo bar baz", 0, 11, Some(found));
        assert_eq!(got.unwrap_err(), HopError::BadMatches);
        assert_eq!(hopper.phase(), Phase::Aborted);
    }
    let mut hopper = Hopper::with_regex(".");
    assert_eq!(hopper.on_switch("né", 0, 3, Some(vec![span(1, 2)])).unwrap_err(), HopError::BadMatches);
    let mut hopper = Hopper::with_regex("bar");
    assert_eq!(hopper.on_switch("foo bar", 0, 3, Some(vec![span(4, 7)])).unwrap_err(), HopError::BadMatches);
}

#[test]
fn more_matches_than_labels_is_an_error() {
    for count in [77usize, 102, 103, 677, 1000] {
        let text = many_words(count);
        let mut hopper = Hopper::word();
        let got = hopper.on_switch(&text, 0, text.len(), None);
        assert_eq!(got.unwrap_err(), HopError::TooManyMatches, "{count} matches");
        assert_eq!(hopper.phase(), Phase::Aborted);
        assert!(hopper.ranges().is_empty());
    }
    for count in [76usize, 78, 101, 676] {
        let text = many_words(count);
        let mut hopper = Hopper::word();
        assert_eq!(hopper.on_switch(&text, 0, text.len(), None).unwrap().overlays.len(), count);
    }
}

#[test]
fn the_matches_of_an_expression_come_from_the_host() {
    let text = "foo bar baz";
    let mut hopper = Hopper::with_regex("ba.");
    let found = host(text, hopper.custom_regex().unwrap(), 0, text.len());
    assert_eq!(found, Some(vec![span(4, 7), span(8, 11)]));
    let overlays = hopper.on_switch(text, 0, text.len(), found).unwrap().overlays;
    let labels: Vec<(usize, &str)> = overlays.iter().map(|o| (o.start, o.label.as_str())).collect();
    assert_eq!(labels, vec![(4, "a"), (8, "b")]);
    assert_eq!(hopper.send_key(Key::Char('a')).jump, Some(span(4, 7)));
}

#[test]
fn words_and_lines_take_no_notice_of_what_the_host_found() {
    let mut hopper = Hopper::word();
    hopper.on_switch("foo bar", 0, 7, Some(vec![span(1, 2)])).unwrap();
    assert_eq!(hopper.ranges(), &vec![span(0, 3), span(4, 7)]);
    let mut hopper = Hopper::line();
    hopper.on_switch("foo bar", 0, 7, Some(vec![span(9, 2)])).unwrap();
    assert_eq!(hopper.ranges(), &vec![span(0, 7)]);
}

#[test]
fn a_copy_of_a_session_goes_its_own_way() {
    let mut hopper = entered(30);
    hopper.send_key(Key::Char('a'));
    let mut copy = hopper.clone();
    assert_eq!(copy.ranges(), hopper.ranges());
    assert_eq!(copy.seq(), "a");
    assert_eq!(copy.phase(), Phase::Awaiting);
    assert!(copy.overlaid());
    assert_eq!(copy.send_key(Key::Char('b')).jump, Some(span(78, 80)));
    assert_eq!(hopper.phase(), Phase::Awaiting);
    let custom = Hopper::with_regex("x+");
    assert_eq!(custom.clone().custom_regex(), Some(&String::from("x+")));
}

#[test]
fn a_line_feed_is_not_hidden_with_a_match_of_one_character() {
    let text = format!("{} é\nq 日\n x\n", many_words(25));
    let mut hopper = Hopper::word();
    let overlays = hopper.on_switch(&text, 0, text.len(), None).unwrap().overlays;
    assert_eq!(overlays.len(), 29);
    let wide = &overlays[25];
    assert_eq!((wide.start, wide.label.as_str()), (75, "aa"));
    assert_eq!(hopper.ranges()[25], span(75, 77));
    assert_eq!(wide.conceal_end, 77);
    let followed = &overlays[26];
    assert_eq!((followed.start, followed.label.as_str()), (78, "ab"));
    assert_eq!(followed.conceal_end, 80);
    let wider = &overlays[27];
    assert_eq!(hopper.ranges()[27], span(80, 83));
    assert_eq!(wider.conceal_end, 83);
    let narrow = &overlays[28];
    assert_eq!(hopper.ranges()[28], span(85, 86));
    assert_eq!(narrow.conceal_end, 86);
}
