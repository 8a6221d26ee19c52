use adblock_engine::boundary::bundle;
use adblock_engine::cosmetic::UrlSpecificResources;
use adblock_engine::text::{
    append_bytes, bytes_eq, copy_bytes, find_after_last, find_byte, has_prefix, has_suffix,
    hash_bytes, join, split_spans,
    to_lower, to_lower_byte, trim_span,
};

#[test]
fn ascii_letters_are_lower_cased() {
    assert_eq!(to_lower_byte(b'A'), b'a');
    assert_eq!(to_lower_byte(b'Z'), b'z');
    assert_eq!(to_lower_byte(b'@'), b'@');
    assert_eq!(to_lower_byte(b'['), b'[');
    assert_eq!(to_lower_byte(b'a'), b'a');
    assert_eq!(to_lower_byte(0xc4), 0xc4);
    assert_eq!(to_lower(b"Hello, W\xc3\x96RLD 42"), b"hello, w\xc3\x96rld 42".to_vec());
    assert_eq!(to_lower(b""), Vec::<u8>::new());
}

#[test]
fn bytes_are_copied_joined_and_compared() {
    assert_eq!(copy_bytes(b"abc"), b"abc".to_vec());
    assert_eq!(append_bytes(b"https://", b"example.com"), b"https://example.com".to_vec());
    assert_eq!(append_bytes(b"", b""), Vec::<u8>::new());
    assert_eq!(append_bytes(b"a", b""), b"a".to_vec());
    assert!(bytes_eq(b"abc", b"abc"));
    assert!(bytes_eq(b"", b""));
    assert!(!bytes_eq(b"abc", b"abd"));
    assert!(!bytes_eq(b"abc", b"ab"));
}

#[test]
fn prefixes_and_suffixes_are_tested() {
    assert!(has_prefix(b"domain=x", b"domain="));
    assert!(has_prefix(b"x", b""));
    assert!(!has_prefix(b"domain", b"domain="));
    assert!(!has_prefix(b"xdomain=", b"domain="));
    assert!(has_suffix(b"a.example.com", b"example.com"));
    assert!(has_suffix(b"x", b""));
    assert!(!has_suffix(b"com", b"example.com"));
    assert!(!has_suffix(b"example.org", b"example.com"));
}

#[test]
fn first_and_last_occurrence_are_found() {
    assert_eq!(find_byte(b"a#b#c", 0, b'#'), 1);
    assert_eq!(find_byte(b"a#b#c", 1, b'#'), 1);
    assert_eq!(find_byte(b"a#b#c", 2, b'#'), 3);
    assert_eq!(find_byte(b"a#b#c", 4, b'#'), 5);
    assert_eq!(find_byte(b"a#b#c", 5, b'#'), 5);
    assert_eq!(find_byte(b"", 0, b'#'), 0);
    assert_eq!(find_after_last(b"a$b$c", 5, b'$'), 4);
    assert_eq!(find_after_last(b"a$b$c", 3, b'$'), 2);
    assert_eq!(find_after_last(b"a$b$c", 1, b'$'), 0);
    assert_eq!(find_after_last(b"abc", 3, b'$'), 0);
    assert_eq!(find_after_last(b"$", 1, b'$'), 1);
}

#[test]
fn text_is_split_at_every_separator() {
    assert_eq!(split_spans(b"a,bc,,d", b','), vec![(0, 1), (2, 4), (5, 5), (6, 7)]);
    assert_eq!(split_spans(b"", b','), vec![(0, 0)]);
    assert_eq!(split_spans(b",", b','), vec![(0, 0), (1, 1)]);
    assert_eq!(split_spans(b"abc", b','), vec![(0, 3)]);
    assert_eq!(split_spans(b"a\nb\n", b'\n'), vec![(0, 1), (2, 3), (4, 4)]);
}

#[test]
fn blanks_are_trimmed_at_both_ends() {
    assert_eq!(trim_span(b"  a b \t\r"), (2, 5));
    assert_eq!(trim_span(b"ab"), (0, 2));
    assert_eq!(trim_span(b"   "), (3, 3));
    assert_eq!(trim_span(b""), (0, 0));
    assert_eq!(trim_span(b"\na\n"), (0, 3));
}

#[test]
fn parts_are_joined_with_a_separator() {
    assert_eq!(join(&vec![b".a".to_vec(), b".b".to_vec(), b"#c".to_vec()], b','), b".a,.b,#c".to_vec());
    assert_eq!(join(&vec![b".a".to_vec()], b','), b".a".to_vec());
    assert_eq!(join(&vec![], b','), Vec::<u8>::new());
    assert_eq!(join(&vec![Vec::new(), Vec::new()], b';'), b";".to_vec());
}

#[test]
fn split_and_join_are_inverse() {
    for text in ["a,bc,,d", "", ",", ",,", "abc", "a,", ",a"] {
        let bytes = text.as_bytes();
        let parts: Vec<Vec<u8>> =
            split_spans(bytes, b',').iter().map(|(a, b)| bytes[*a..*b].to_vec()).collect();
        assert_eq!(join(&parts, b','), bytes.to_vec());
        assert!(parts.iter().all(|p| !p.contains(&b',')));
    }
}

#[test]
fn bucket_hash_folds_bytes() {
    assert_eq!(hash_bytes(b""), 0);
    assert_eq!(hash_bytes(b"a"), 97);
    assert_eq!(hash_bytes(b"ab"), 97 * 257 + 98);
    assert_eq!(hash_bytes(b"abc"), (97 * 257 + 98) * 257 + 99);
    assert_eq!(
        hash_bytes(&[255; 8]),
        ((hash_bytes(&[255; 7]) % 0x1_0000_0000_0000) * 257) + 255
    );
    assert_eq!(hash_bytes(b"example.com"), hash_bytes(b"example.com"));
    assert_ne!(hash_bytes(b"example.com"), hash_bytes(b"example.org"));
}

#[test]
fn bundle_tells_absent_from_present() {
    let full = bundle(UrlSpecificResources {
        hide_selectors: vec![b".a".to_vec(), b".b".to_vec()],
        style_selectors: Vec::new(),
        exceptions: Vec::new(),
        injected_script: b"run();".to_vec(),
        generichide: true,
    });
    assert_eq!(full.hide_selectors, Some(b".a,.b".to_vec()));
    assert_eq!(full.injected_script, Some(b"run();".to_vec()));
    assert!(full.generichide);
    assert!(full.style_selectors.is_none() && full.exceptions.is_none());
    let empty = bundle(UrlSpecificResources {
        hide_selectors: Vec::new(),
        style_selectors: Vec::new(),
        exceptions: Vec::new(),
        injected_script: Vec::new(),
        generichide: false,
    });
    assert_eq!(empty.hide_selectors, None);
    assert_eq!(empty.injected_script, None);
    assert!(!empty.generichide);
}
