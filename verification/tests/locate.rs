use duat_core::text::RegexHaystack;
use hop::locate::{check_matches, find_lines, find_words};
use hop::text::{chars_of, space, width_of, Decoded};
use hop::Span;

const WORD: &str = "[^\n\\s]+";
const LINE: &str = "[^\n\\s][^\n]+";

const SAMPLES: [&str; 12] = [
    "",
    "foo bar baz",
    "  leading and trailing  ",
    "tabs\tand\nnew lines\r\nand more\n",
    "héllo wörld ñ",
    "a\u{a0}b\u{3000}c\u{2028}d\u{85}e\u{200b}f\u{1680}g\u{202f}h\u{205f}i",
    "one\n\n  two words  \nx\n y\nzz",
    "x",
    "\n\n\n",
    "日本語 のテキスト\n 𝄞 clef",
    "a b\nc\n d e \n\tf\n",
    "\u{2000}\u{2001}\u{200a}w\u{2029}\u{b}v\u{c}u",
];

fn span(start: usize, end: usize) -> Span {
    Span { start, end }
}

fn host(text: &str, pattern: &str, start: usize, end: usize) -> Vec<Span> {
    let owned = String::from(text);
    owned.search(pattern).range(start..end).map(|r| span(r.start, r.end)).collect()
}

fn boundaries(text: &str) -> Vec<usize> {
    let mut all: Vec<usize> = text.char_indices().map(|(i, _)| i).collect();
    all.push(text.len());
    all
}

fn words(text: &str, start: usize, end: usize) -> Vec<Span> {
    let page = Decoded::decode(text);
    let lo = page.find(start).unwrap();
    let hi = page.find(end).unwrap();
    find_words(&page, lo, hi)
}

fn lines(text: &str, start: usize, end: usize) -> Vec<Span> {
    let page = Decoded::decode(text);
    let lo = page.find(start).unwrap();
    let hi = page.find(end).unwrap();
    find_lines(&page, lo, hi)
}

#[test]
fn words_of_foo_bar_baz() {
    assert_eq!(words("foo bar baz", 0, 11), vec![span(0, 3), span(4, 7), span(8, 11)]);
}

#[test]
fn words_are_cut_by_the_visible_range() {
    assert_eq!(words("foo bar baz", 1, 9), vec![span(1, 3), span(4, 7), span(8, 9)]);
    assert_eq!(words("foo bar baz", 3, 4), vec![]);
    assert_eq!(words("foo bar baz", 5, 5), vec![]);
}

#[test]
fn words_count_bytes_not_characters() {
    assert_eq!(words("héllo wörld ñ", 0, 16), vec![span(0, 6), span(7, 13), span(14, 16)]);
}

#[test]
fn words_end_at_every_kind_of_white_space() {
    let text = "a\u{a0}b\u{3000}c\tdd\ne";
    assert_eq!(words(text, 0, text.len()), vec![span(0, 1), span(3, 4), span(7, 8), span(9, 11), span(12, 13)]);
    let joined = "a\u{200b}b";
    assert_eq!(words(joined, 0, joined.len()), vec![span(0, 5)]);
}

#[test]
fn lines_hold_the_content_of_each_line() {
    let text = "one\n\n  two words  \nx\n y\nzz";
    assert_eq!(lines(text, 0, text.len()), vec![span(0, 3), span(7, 18), span(24, 26)]);
}

#[test]
fn lines_of_one_character_are_no_match() {
    assert_eq!(lines("x", 0, 1), vec![]);
    assert_eq!(lines("x\ny\n z", 0, 6), vec![]);
    assert_eq!(lines("xy", 0, 2), vec![span(0, 2)]);
    assert_eq!(lines("x ", 0, 2), vec![span(0, 2)]);
}

#[test]
fn lines_keep_what_follows_the_first_character() {
    assert_eq!(lines("ab\r\ncd", 0, 6), vec![span(0, 3), span(4, 6)]);
    assert_eq!(lines("\ta b \n", 0, 6), vec![span(1, 5)]);
}

#[test]
fn words_agree_with_the_host_search() {
    for text in SAMPLES {
        let marks = boundaries(text);
        for (i, &start) in marks.iter().enumerate() {
            for &end in &marks[i..] {
                assert_eq!(words(text, start, end), host(text, WORD, start, end), "{text:?} from {start} to {end}");
            }
        }
    }
}

#[test]
fn lines_agree_with_the_host_search() {
    for text in SAMPLES {
        let marks = boundaries(text);
        for (i, &start) in marks.iter().enumerate() {
            for &end in &marks[i..] {
                assert_eq!(lines(text, start, end), host(text, LINE, start, end), "{text:?} from {start} to {end}");
            }
        }
    }
}

#[test]
fn found_words_and_lines_pass_the_check_of_matches() {
    for text in SAMPLES {
        let page = Decoded::decode(text);
        assert!(check_matches(&page, 0, text.len(), &words(text, 0, text.len())));
        assert!(check_matches(&page, 0, text.len(), &lines(text, 0, text.len())));
    }
}

#[test]
fn matches_must_be_in_order_and_not_empty() {
    let page = Decoded::decode("foo bar baz");
    assert!(check_matches(&page, 0, 11, &vec![]));
    assert!(check_matches(&page, 0, 11, &vec![span(0, 3), span(3, 7)]));
    assert!(!check_matches(&page, 0, 11, &vec![span(0, 4), span(3, 7)]));
    assert!(!check_matches(&page, 0, 11, &vec![span(4, 7), span(0, 3)]));
    assert!(!check_matches(&page, 0, 11, &vec![span(4, 4)]));
    assert!(!check_matches(&page, 0, 11, &vec![span(5, 4)]));
    assert!(!check_matches(&page, 0, 11, &vec![span(0, 3), span(0, 3)]));
}

#[test]
fn matches_must_lie_in_the_visible_range() {
    let page = Decoded::decode("foo bar baz");
    assert!(check_matches(&page, 4, 7, &vec![span(4, 7)]));
    assert!(!check_matches(&page, 4, 7, &vec![span(3, 7)]));
    assert!(!check_matches(&page, 4, 7, &vec![span(4, 8)]));
    assert!(!check_matches(&page, 0, 11, &vec![span(8, 12)]));
}

#[test]
fn matches_must_not_cut_a_character() {
    let page = Decoded::decode("né x");
    assert!(check_matches(&page, 0, 5, &vec![span(0, 3), span(4, 5)]));
    assert!(check_matches(&page, 0, 5, &vec![span(1, 3)]));
    assert!(!check_matches(&page, 0, 5, &vec![span(0, 2)]));
    assert!(!check_matches(&page, 0, 5, &vec![span(2, 3)]));
}

#[test]
fn decoding_gives_characters_and_their_positions() {
    let text = "aé日𝄞z";
    let page = Decoded::decode(text);
    assert_eq!(chars_of(text), vec!['a', 'é', '日', '𝄞', 'z']);
    assert_eq!(page.len(), 5);
    assert_eq!(page.char_at(2), '日');
    let starts: Vec<usize> = (0..=5).map(|i| page.start_of(i)).collect();
    assert_eq!(starts, vec![0, 1, 3, 6, 10, 11]);
    assert_eq!(page.start_of(5), text.len());
    assert_eq!(page.find(6), Some(3));
    assert_eq!(page.find(11), Some(5));
    assert_eq!(page.find(0), Some(0));
    assert_eq!(page.find(2), None);
    assert_eq!(page.find(7), None);
    assert_eq!(page.find(12), None);
}

#[test]
fn widths_are_those_of_utf8() {
    for c in ['\0', 'a', '\u{7f}', '\u{80}', 'é', '\u{7ff}', '\u{800}', '日', '\u{ffff}', '\u{10000}', '𝄞', '\u{10ffff}'] {
        assert_eq!(width_of(c), c.len_utf8(), "{c:?}");
    }
}

#[test]
fn white_space_is_what_the_host_takes_for_it() {
    for code in 0..0x3100u32 {
        if let Some(c) = char::from_u32(code) {
            assert_eq!(space(c), c.is_whitespace(), "{code:#x}");
        }
    }
    for code in (0..0x100u32).chain(0x1670..0x1690).chain(0x1ff0..0x2070).chain(0x2ff0..0x3010) {
        if let Some(c) = char::from_u32(code) {
            let text = c.to_string();
            assert_eq!(space(c), !text.contains_pat("[^\\s]").unwrap(), "{code:#x}");
        }
    }
}

/// Texts of up to twelve characters drawn from letters, white space of several kinds and
/// characters of more than one byte, by a fixed sequence of numbers.
fn drawn_texts(count: usize) -> Vec<String> {
    let letters = ['a', 'b', ' ', ' ', '\n', '\n', '\t', '\r', 'é', '\u{a0}', '日', '\u{2028}', '𝄞', '.'];
    let mut state: u64 = 0x2545_f491_4f6c_dd1d;
    let mut next = move || {
        state ^= state << 13;
        state ^= state >> 7;
        state ^= state << 17;
        state
    };
    let mut texts = Vec::new();
    for _ in 0..count {
        let len = (next() % 13) as usize;
        texts.push((0..len).map(|_| letters[(next() % letters.len() as u64) as usize]).collect());
    }
    texts
}

#[test]
fn words_agree_with_the_host_search_on_drawn_texts() {
    for text in drawn_texts(400) {
        let marks = boundaries(&text);
        for (i, &start) in marks.iter().enumerate() {
            for &end in &marks[i..] {
                assert_eq!(words(&text, start, end), host(&text, WORD, start, end), "{text:?} from {start} to {end}");
            }
        }
    }
}

#[test]
fn lines_agree_with_the_host_search_on_drawn_texts() {
    for text in drawn_texts(400) {
        let marks = boundaries(&text);
        for (i, &start) in marks.iter().enumerate() {
            for &end in &marks[i..] {
                assert_eq!(lines(&text, start, end), host(&text, LINE, start, end), "{text:?} from {start} to {end}");
            }
        }
    }
}
