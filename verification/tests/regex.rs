use adblock_engine::boundary::{engine_create, engine_match};
use adblock_engine::regex::{
    accepts, byte_in_ranges, byte_is_punct, parse_atom, parse_class, parse_regex,
    push_letter_ranges, to_upper_byte, Atom, Element, Regex, Repeat,
};

fn regex(text: &str) -> Regex {
    parse_regex(text.as_bytes()).unwrap()
}

#[test]
fn plain_bytes_are_a_substring_test() {
    let re = regex("ads");
    assert!(re.matches(b"https://x.example/ads/1"));
    assert!(re.matches(b"ads"));
    assert!(!re.matches(b"https://x.example/ad/s"));
    assert!(!re.matches(b""));
    assert!(regex("ADS").matches(b"https://x.example/ads"));
}

#[test]
fn repetition_marks_are_honoured() {
    let re = regex("ab*c");
    assert!(re.matches(b"ac"));
    assert!(re.matches(b"abc"));
    assert!(re.matches(b"xabbbbcx"));
    assert!(!re.matches(b"abxc"));
    let re = regex("ab+c");
    assert!(!re.matches(b"ac"));
    assert!(re.matches(b"abc"));
    assert!(re.matches(b"abbbc"));
    let re = regex("ab?c");
    assert!(re.matches(b"ac"));
    assert!(re.matches(b"abc"));
    assert!(!re.matches(b"abbc"));
    let re = regex("a.*c");
    assert!(re.matches(b"ac"));
    assert!(re.matches(b"a---c"));
    assert!(!re.matches(b"c---a"));
    let re = regex("a.c");
    assert!(re.matches(b"a/c"));
    assert!(!re.matches(b"ac"));
    assert!(regex("a*").matches(b""));
    assert!(regex("a?b?").matches(b"zzz"));
}

#[test]
fn anchors_pin_the_ends() {
    let re = regex("^https?:\\/\\/ads\\.");
    assert!(re.matches(b"https://ads.example/"));
    assert!(re.matches(b"http://ads.example/"));
    assert!(!re.matches(b"https://x.ads.example/"));
    assert!(!re.matches(b"xhttps://ads.example/"));
    let re = regex("\\.png$");
    assert!(re.matches(b"https://x.example/a.png"));
    assert!(!re.matches(b"https://x.example/a.png?b"));
    let re = regex("^abc$");
    assert!(re.matches(b"abc"));
    assert!(!re.matches(b"abcd"));
    assert!(!re.matches(b"zabc"));
    assert!(regex("^a*$").matches(b""));
    assert!(regex("^a*$").matches(b"aaa"));
    assert!(!regex("^a*$").matches(b"aab"));
    assert!(regex("\\$\\^").matches(b"x$^y"));
}

#[test]
fn classes_hold_bytes_ranges_and_escapes() {
    let re = regex("ads[0-9]+x");
    assert!(re.matches(b"ads42x"));
    assert!(!re.matches(b"adsx"));
    assert!(!re.matches(b"ads4y"));
    let re = regex("[^a-z0-9]x");
    assert!(re.matches(b"/x"));
    assert!(!re.matches(b"ax"));
    assert!(!re.matches(b"7x"));
    assert!(!re.matches(b"x"));
    let re = regex("a[A-Z]c");
    assert!(re.matches(b"abc"));
    assert!(!re.matches(b"a1c"));
    let re = regex("a[\\d_\\-.]c");
    assert!(re.matches(b"a5c"));
    assert!(re.matches(b"a_c"));
    assert!(re.matches(b"a-c"));
    assert!(re.matches(b"a.c"));
    assert!(!re.matches(b"abc"));
    let re = regex("[a-]");
    assert!(re.matches(b"-"));
    assert!(re.matches(b"a"));
    assert!(!re.matches(b"b"));
    let re = regex("x[[]y");
    assert!(re.matches(b"x[y"));
}

#[test]
fn class_escapes_stand_for_their_ranges() {
    assert!(regex("\\d").matches(b"a7"));
    assert!(!regex("\\d").matches(b"ab"));
    assert!(regex("^\\D+$").matches(b"ab/"));
    assert!(!regex("^\\D+$").matches(b"ab7"));
    assert!(regex("^\\w+$").matches(b"ab_7"));
    assert!(!regex("^\\w+$").matches(b"ab-7"));
    assert!(regex("\\W").matches(b"ab-7"));
    assert!(regex("a\\sb").matches(b"a b"));
    assert!(regex("a\\sb").matches(b"a\tb"));
    assert!(!regex("a\\sb").matches(b"a_b"));
    assert!(regex("^\\S+$").matches(b"a_b"));
    assert!(!regex("^\\S+$").matches(b"a b"));
}

#[test]
fn parsed_items_are_as_written() {
    let re = regex("^a.\\d*[x-z]+\\.?$");
    assert!(re.from_start);
    assert!(re.to_end);
    assert_eq!(
        re.elements,
        vec![
            Element { atom: Atom::Byte(b'a'), repeat: Repeat::Once },
            Element { atom: Atom::Any, repeat: Repeat::Once },
            Element { atom: Atom::Class { negated: false, from: 0, to: 1 }, repeat: Repeat::Many },
            Element {
                atom: Atom::Class { negated: false, from: 1, to: 2 },
                repeat: Repeat::AtLeastOnce
            },
            Element { atom: Atom::Byte(b'.'), repeat: Repeat::Optional },
        ]
    );
    assert_eq!(re.ranges, vec![(b'0', b'9'), (b'x', b'z')]);
    let re = regex("\\W");
    assert_eq!(
        re.elements,
        vec![Element { atom: Atom::Class { negated: true, from: 0, to: 4 }, repeat: Repeat::Once }]
    );
    assert_eq!(re.ranges, vec![(b'0', b'9'), (b'A', b'Z'), (b'_', b'_'), (b'a', b'z')]);
}

#[test]
fn unsupported_expressions_are_refused() {
    for text in [
        "", "^", "$", "^$", "(a)", "a|b", "a{2}", "a)", "a}", "*a", "+a", "?a", "a**", "a+?",
        "a$b", "a^b", "[a", "[", "[]", "[^]", "[z-a]", "\\", "a\\", "\\b", "\\1", "[\\D]", "[\\b]",
        "]",
    ] {
        assert!(parse_regex(text.as_bytes()).is_none(), "{:?}", text);
    }
}

#[test]
fn atoms_and_classes_are_read_one_at_a_time() {
    let mut ranges: Vec<(u8, u8)> = vec![(1, 2)];
    assert_eq!(parse_atom(b"x.y", 1, &mut ranges), Some((Atom::Any, 2)));
    assert_eq!(parse_atom(b"Xy", 0, &mut ranges), Some((Atom::Byte(b'x'), 1)));
    assert_eq!(parse_atom(b"\\/", 0, &mut ranges), Some((Atom::Byte(b'/'), 2)));
    assert_eq!(parse_atom(b"(", 0, &mut ranges), None);
    assert_eq!(ranges, vec![(1, 2)]);
    assert_eq!(
        parse_atom(b"[^a-c]z", 0, &mut ranges),
        Some((Atom::Class { negated: true, from: 1, to: 2 }, 6))
    );
    assert_eq!(ranges, vec![(1, 2), (b'a', b'c')]);
    assert_eq!(parse_class(b"ab-d\\]]x", 0, &mut ranges), Some(7));
    assert_eq!(ranges, vec![(1, 2), (b'a', b'c'), (b'a', b'a'), (b'b', b'd'), (b']', b']')]);
    assert_eq!(parse_class(b"ab", 0, &mut ranges), None);
    let mut ranges: Vec<(u8, u8)> = Vec::new();
    push_letter_ranges(&mut ranges, b's');
    assert_eq!(ranges, vec![(9, 13), (32, 32)]);
    push_letter_ranges(&mut ranges, b'd');
    assert_eq!(ranges, vec![(9, 13), (32, 32), (b'0', b'9')]);
}

#[test]
fn bytes_are_tested_against_atoms() {
    let ranges = vec![(b'a', b'c'), (b'X', b'Z'), (b'0', b'0')];
    assert!(byte_in_ranges(&ranges, 0, 3, b'b'));
    assert!(byte_in_ranges(&ranges, 0, 3, b'0'));
    assert!(!byte_in_ranges(&ranges, 0, 2, b'0'));
    assert!(!byte_in_ranges(&ranges, 1, 3, b'b'));
    assert!(!byte_in_ranges(&ranges, 0, 3, b'y'));
    assert!(byte_in_ranges(&ranges, 0, 9, b'Y'));
    assert!(!byte_in_ranges(&ranges, 5, 9, b'Y'));
    assert!(!byte_in_ranges(&ranges, 2, 1, b'0'));
    assert!(accepts(&ranges, Atom::Class { negated: false, from: 0, to: 3 }, b'y'));
    assert!(!accepts(&ranges, Atom::Class { negated: true, from: 0, to: 3 }, b'y'));
    assert!(accepts(&ranges, Atom::Class { negated: true, from: 0, to: 3 }, b'q'));
    assert!(accepts(&ranges, Atom::Any, 0));
    assert!(accepts(&ranges, Atom::Byte(b'q'), b'q'));
    assert!(!accepts(&ranges, Atom::Byte(b'q'), b'Q'));
    assert_eq!(to_upper_byte(b'a'), b'A');
    assert_eq!(to_upper_byte(b'z'), b'Z');
    assert_eq!(to_upper_byte(b'{'), b'{');
    assert_eq!(to_upper_byte(b'A'), b'A');
    assert!(byte_is_punct(b'!') && byte_is_punct(b'/') && byte_is_punct(b'~') && byte_is_punct(b'@'));
    assert!(!byte_is_punct(b'a') && !byte_is_punct(b'0') && !byte_is_punct(b' '));
    assert!(!byte_is_punct(0x7f) && !byte_is_punct(0x80));
}

#[test]
fn regular_expression_rule_blocks_what_it_matches() {
    let handle = engine_create("/banner\\d+\\.(png)/\n/banner\\d+/$domain=news.example\n@@/banner0+$/");
    assert!(engine_match(&handle, "https://x.example/banner42", "", "news.example"));
    assert!(engine_match(&handle, "https://x.example/BANNER42.png", "", "sub.news.example"));
    assert!(!engine_match(&handle, "https://x.example/banner42", "", "other.example"));
    assert!(!engine_match(&handle, "https://x.example/banner", "", "news.example"));
    assert!(!engine_match(&handle, "https://x.example/banner00", "", "news.example"));
    assert!(engine_match(&handle, "https://x.example/banner00/x", "", "news.example"));
}
