use adblock_engine::cosmetic::{is_cancelled, is_in_force, list_contains, CosmeticIndex};
use adblock_engine::parser::{parse_line, ParsedLine};
use adblock_engine::rule::CosmeticRule;

fn cosmetic(line: &str) -> CosmeticRule {
    match parse_line(line.as_bytes()) {
        Ok(ParsedLine::Cosmetic(rule)) => rule,
        other => panic!("no cosmetic rule: {:?}", other),
    }
}

fn index_of(rules: &[&str], exceptions: &[&str]) -> CosmeticIndex {
    CosmeticIndex::build(
        rules.iter().map(|l| cosmetic(l)).collect(),
        exceptions.iter().map(|l| cosmetic(l)).collect(),
    )
}

fn texts(list: &[Vec<u8>]) -> Vec<String> {
    list.iter().map(|s| String::from_utf8(s.clone()).unwrap()).collect()
}

#[test]
fn selectors_come_in_rule_order() {
    let idx = index_of(
        &[
            "b.example##.x",
            "##.g1",
            "a.example,b.example##.y",
            "localhost##.l",
            "##.g2",
            "b.example##.g1",
            "c.example##.never",
        ],
        &[],
    );
    assert_eq!(texts(&idx.resolve(b"b.example", false).hide_selectors), [".x", ".g1", ".y", ".g2"]);
    assert_eq!(texts(&idx.resolve(b"localhost", false).hide_selectors), [".g1", ".l", ".g2"]);
    assert_eq!(
        texts(&idx.resolve(b"deep.sub.a.example", false).hide_selectors),
        [".g1", ".y", ".g2"]
    );
    assert_eq!(texts(&idx.resolve(b"else.test", false).hide_selectors), [".g1", ".g2"]);
    assert_eq!(texts(&idx.resolve(b"", false).hide_selectors), [".g1", ".g2"]);
}

#[test]
fn generichide_drops_generic_selectors_only() {
    let idx = index_of(
        &["b.example##.x", "##.g1", "~a.example##.g2", "b.example##.g1", "##+js(s1;)", "b.example##+js(s2;)"],
        &[],
    );
    let on = idx.resolve(b"b.example", true);
    assert!(on.generichide);
    assert_eq!(texts(&on.hide_selectors), [".x", ".g1"]);
    assert_eq!(on.injected_script, b"s1;s2;".to_vec());
    let off = idx.resolve(b"b.example", false);
    assert!(!off.generichide);
    assert_eq!(texts(&off.hide_selectors), [".x", ".g1", ".g2"]);
    let elsewhere = idx.resolve(b"c.example", true);
    assert!(elsewhere.hide_selectors.is_empty());
    assert_eq!(elsewhere.injected_script, b"s1;".to_vec());
}

#[test]
fn selector_named_twice_is_listed_once() {
    let idx = index_of(
        &["a.example.com,b.example.com,example.com##.z", "##.z", "example.com##.z", "##.w"],
        &[],
    );
    assert_eq!(texts(&idx.resolve(b"a.example.com", false).hide_selectors), [".z", ".w"]);
    assert_eq!(texts(&idx.resolve(b"example.com", false).hide_selectors), [".z", ".w"]);
    assert_eq!(texts(&idx.resolve(b"example.com", true).hide_selectors), [".z"]);
    assert_eq!(texts(&idx.resolve(b"other.com", true).hide_selectors).len(), 0);
}

#[test]
fn exception_cancels_selector_on_its_domain() {
    let idx = index_of(
        &["##.ad", "shop.example##.ad", "shop.example##.banner", "##.promo"],
        &["shop.example#@#.ad", "#@#.promo", "news.example#@#.banner"],
    );
    assert_eq!(texts(&idx.resolve(b"shop.example", false).hide_selectors), [".banner"]);
    assert_eq!(texts(&idx.resolve(b"www.shop.example", false).hide_selectors), [".banner"]);
    assert_eq!(texts(&idx.resolve(b"news.example", false).hide_selectors), [".ad"]);
    let res = idx.resolve(b"shop.example", false);
    assert!(res.exceptions.is_empty());
    assert!(res.style_selectors.is_empty());
}

#[test]
fn excluded_domain_is_left_alone() {
    let idx = index_of(&["~b.example##.n", "a.example,~sub.a.example##.m"], &[]);
    assert_eq!(texts(&idx.resolve(b"a.example", false).hide_selectors), [".n", ".m"]);
    assert_eq!(texts(&idx.resolve(b"b.example", false).hide_selectors).len(), 0);
    assert_eq!(texts(&idx.resolve(b"x.b.example", false).hide_selectors).len(), 0);
    assert_eq!(texts(&idx.resolve(b"sub.a.example", false).hide_selectors), [".n"]);
    assert_eq!(texts(&idx.resolve(b"x.sub.a.example", false).hide_selectors), [".n"]);
    assert_eq!(texts(&idx.resolve(b"other.a.example", false).hide_selectors), [".n", ".m"]);
}

#[test]
fn scripts_are_joined_in_rule_order() {
    let idx = index_of(
        &["b.example##+js(one;)", "##+js(two;)", "b.example##.x", "b.example##+js(three;)"],
        &["c.example#@#+js(two;)", "b.example#@#.two;"],
    );
    assert_eq!(idx.resolve(b"b.example", false).injected_script, b"one;two;three;".to_vec());
    assert_eq!(idx.resolve(b"a.example", false).injected_script, b"two;".to_vec());
    assert_eq!(idx.resolve(b"c.example", false).injected_script, b"".to_vec());
    assert_eq!(texts(&idx.resolve(b"b.example", false).hide_selectors), [".x"]);
}

#[test]
fn domain_of_a_known_suffix_is_bucketed_too() {
    let idx = index_of(&["shop.co.uk##.a", "co.uk##.b", "uk##.c", "other.co.uk##.d"], &[]);
    assert_eq!(texts(&idx.resolve(b"www.shop.co.uk", false).hide_selectors), [".a", ".b", ".c"]);
    assert_eq!(texts(&idx.resolve(b"other.co.uk", false).hide_selectors), [".b", ".c", ".d"]);
    assert_eq!(texts(&idx.resolve(b"uk", false).hide_selectors), [".c"]);
    assert_eq!(texts(&idx.resolve(b"shop.co.de", false).hide_selectors).len(), 0);
}

#[test]
fn many_rules_keep_their_order() {
    let mut lines: Vec<String> = Vec::new();
    for i in 0..60 {
        match i % 4 {
            0 => lines.push(format!("##.g{}", i)),
            1 => lines.push(format!("s{}.example##.s{}", i % 8, i)),
            2 => lines.push(format!("s1.example,s5.example##.m{}", i)),
            _ => lines.push(format!("local##.l{}", i)),
        }
    }
    let refs: Vec<&str> = lines.iter().map(|s| s.as_str()).collect();
    let idx = index_of(&refs, &[]);
    let mut expect: Vec<String> = Vec::new();
    for i in 0..60 {
        match i % 4 {
            0 => expect.push(format!(".g{}", i)),
            1 if i % 8 == 5 => expect.push(format!(".s{}", i)),
            2 => expect.push(format!(".m{}", i)),
            _ => {}
        }
    }
    assert_eq!(texts(&idx.resolve(b"www.s5.example", false).hide_selectors), expect);
    let local: Vec<String> =
        (0..60).filter(|i| i % 4 == 0 || i % 4 == 3).map(|i| {
            if i % 4 == 0 { format!(".g{}", i) } else { format!(".l{}", i) }
        }).collect();
    assert_eq!(texts(&idx.resolve(b"local", false).hide_selectors), local);
}

#[test]
fn rule_in_force_needs_host_no_suppression_no_exception() {
    let generic = cosmetic("##.ad");
    let scoped = cosmetic("a.example##.ad");
    let script = cosmetic("##+js(x)");
    let exceptions = vec![cosmetic("b.example#@#.ad"), cosmetic("a.example#@#+js(x)")];
    assert!(is_in_force(&generic, &exceptions, b"a.example", false));
    assert!(!is_in_force(&generic, &exceptions, b"a.example", true));
    assert!(!is_in_force(&generic, &exceptions, b"b.example", false));
    assert!(is_in_force(&scoped, &exceptions, b"a.example", true));
    assert!(!is_in_force(&scoped, &exceptions, b"c.example", false));
    assert!(is_in_force(&script, &exceptions, b"b.example", true));
    assert!(!is_in_force(&script, &exceptions, b"a.example", false));
    assert!(is_cancelled(&exceptions, &generic, b"www.b.example"));
    assert!(!is_cancelled(&exceptions, &generic, b"a.example"));
    assert!(!is_cancelled(&exceptions, &script, b"b.example"));
    assert!(is_cancelled(&exceptions, &script, b"a.example"));
}

#[test]
fn list_membership_compares_bytes() {
    let list = vec![b".a".to_vec(), b".b".to_vec()];
    assert!(list_contains(&list, b".b"));
    assert!(!list_contains(&list, b".c"));
    assert!(!list_contains(&list, b""));
    assert!(!list_contains(&Vec::new(), b""));
}
