use adblock_engine::index::FilterIndex;
use adblock_engine::network::{check, find_block, find_exception, MatchResult};
use adblock_engine::parser::{parse_line, ParsedLine};
use adblock_engine::request::{Request, ResourceType};
use adblock_engine::rule::{check_domains, check_types, DomainEntry, NetworkRule, TypeEntry};
use adblock_engine::engine::any_rule_matches;

fn network(line: &str) -> NetworkRule {
    match parse_line(line.as_bytes()) {
        Ok(ParsedLine::Network(rule)) => rule,
        other => panic!("no network rule: {:?}", other),
    }
}

fn rules(lines: &[&str]) -> Vec<NetworkRule> {
    lines.iter().map(|l| network(l)).collect()
}

fn entry(negated: bool, name: &str) -> DomainEntry {
    DomainEntry { negated, name: name.as_bytes().to_vec() }
}

#[test]
fn domain_list_admits_included_and_not_excluded() {
    let none: Vec<DomainEntry> = Vec::new();
    assert!(check_domains(&none, b"any.example"));
    assert!(check_domains(&none, b""));
    let only = vec![entry(false, "a.example"), entry(false, "b.example")];
    assert!(check_domains(&only, b"a.example"));
    assert!(check_domains(&only, b"x.b.example"));
    assert!(!check_domains(&only, b"c.example"));
    assert!(!check_domains(&only, b""));
    let not = vec![entry(true, "a.example")];
    assert!(!check_domains(&not, b"a.example"));
    assert!(!check_domains(&not, b"x.a.example"));
    assert!(check_domains(&not, b"b.example"));
    assert!(check_domains(&not, b""));
    let both = vec![entry(false, "a.example"), entry(true, "x.a.example")];
    assert!(check_domains(&both, b"a.example"));
    assert!(check_domains(&both, b"y.a.example"));
    assert!(!check_domains(&both, b"x.a.example"));
    assert!(!check_domains(&both, b"z.x.a.example"));
    assert!(!check_domains(&both, b"b.example"));
}

#[test]
fn type_list_admits_included_and_not_excluded() {
    let none: Vec<TypeEntry> = Vec::new();
    assert!(check_types(&none, ResourceType::Document));
    let only = vec![
        TypeEntry { negated: false, rtype: ResourceType::Script },
        TypeEntry { negated: false, rtype: ResourceType::Image },
    ];
    assert!(check_types(&only, ResourceType::Image));
    assert!(!check_types(&only, ResourceType::Font));
    let not = vec![TypeEntry { negated: true, rtype: ResourceType::Script }];
    assert!(!check_types(&not, ResourceType::Script));
    assert!(check_types(&not, ResourceType::Image));
    let clash = vec![
        TypeEntry { negated: false, rtype: ResourceType::Script },
        TypeEntry { negated: true, rtype: ResourceType::Script },
    ];
    assert!(!check_types(&clash, ResourceType::Script));
    assert!(!check_types(&clash, ResourceType::Image));
}

#[test]
fn rule_matches_by_pattern_party_type_and_domain() {
    let req = Request::new("https://cdn.ads.example/lib.js", "https://news.example/", "script").unwrap();
    assert!(network("||ads.example^").matches(&req));
    assert!(network("||ads.example^$third-party").matches(&req));
    assert!(!network("||ads.example^$~third-party").matches(&req));
    assert!(network("||ads.example^$third-party,first-party").matches(&req));
    assert!(network("||ads.example^$script").matches(&req));
    assert!(!network("||ads.example^$image").matches(&req));
    assert!(network("||ads.example^$~image").matches(&req));
    assert!(network("||ads.example^$domain=news.example").matches(&req));
    assert!(!network("||ads.example^$domain=~news.example").matches(&req));
    assert!(!network("||ads.example^$domain=other.example").matches(&req));
    assert!(!network("||other.example^").matches(&req));
    assert!(network("LIB.JS|").matches(&req));
    let own = Request::new("https://cdn.ads.example/lib.js", "https://www.ads.example/", "script").unwrap();
    assert!(!network("||ads.example^$third-party").matches(&own));
    assert!(network("||ads.example^$first-party").matches(&own));
}

#[test]
fn token_is_the_longest_literal_run() {
    assert_eq!(network("||Ads.example^").token(), b"ads.example");
    assert_eq!(network("*banner*ads*").token(), b"banner");
    assert_eq!(network("*$image").token(), b"");
    assert_eq!(network("ab*cd").token(), b"ab");
}

#[test]
fn specificity_counts_constraints_then_length() {
    let plain = network("ads");
    assert_eq!(plain.constraints(), 0);
    assert_eq!(network("||ads").constraints(), 1);
    assert_eq!(network("|ads|").constraints(), 2);
    assert_eq!(network("ads$image,script").constraints(), 1);
    assert_eq!(network("ads$third-party").constraints(), 1);
    assert_eq!(network("ads$third-party,first-party").constraints(), 0);
    assert_eq!(network("ads$domain=a.example|b.example").constraints(), 1);
    assert_eq!(network("||ads|$script,~third-party,domain=a.example,important").constraints(), 5);
    assert_eq!(network("/ads\\d/").constraints(), 1);
    assert_eq!(network("/ads\\d/$image").constraints(), 2);
    assert!(network("/a/").is_more_specific_than(&network("adsadsads")));
    assert!(!network("/a/").is_more_specific_than(&network("||a")));
    assert!(network("||ads").is_more_specific_than(&network("adsadsads")));
    assert!(!network("adsadsads").is_more_specific_than(&network("||ads")));
    assert!(network("adsx").is_more_specific_than(&network("ads")));
    assert!(!network("ads").is_more_specific_than(&network("sda")));
    assert!(!network("ads").is_more_specific_than(&network("ads")));
    assert!(network("ads$image").is_more_specific_than(&network("adsads$important")));
}

#[test]
fn lookup_comes_upon_keyed_and_catch_all_rules() {
    let lines = ["||ads.example^", "ad", "*banner*", "^a*b^", "/img/banners"];
    let keyed = FilterIndex::build(rules(&lines), true);
    assert_eq!(keyed.len(), 5);
    assert_eq!(keyed.rule(2).body, b"*banner*".to_vec());
    let mut c = keyed.candidates_for(b"https://x.example/banner");
    c.sort();
    c.dedup();
    assert_eq!(c, vec![1, 2, 3]);
    assert_eq!(keyed.candidates_for(b"https://ads.example/img/banners/1"), vec![1, 3, 0, 4, 2]);
    assert_eq!(keyed.candidates_for(b"adsads.adsads."), vec![1, 3, 0, 0]);
    let mut c = keyed.candidates_for(b"https://ads.example/img/banners/1");
    c.sort();
    c.dedup();
    assert_eq!(c, vec![0, 1, 2, 3, 4]);
    let mut c = keyed.candidates_for(b"abc");
    c.sort();
    assert_eq!(c, vec![1, 3]);
    let mut c = keyed.candidates_for(b"");
    c.sort();
    assert_eq!(c, vec![1, 3]);
    let plain = FilterIndex::build(rules(&lines), false);
    let mut c = plain.candidates_for(b"abc");
    c.sort();
    assert_eq!(c, vec![0, 1, 2, 3, 4]);
    let empty = FilterIndex::build(Vec::new(), true);
    assert_eq!(empty.len(), 0);
    assert!(empty.candidates_for(b"https://ads.example/").is_empty());
}

#[test]
fn matcher_finds_blocks_and_best_exception() {
    let blocks = FilterIndex::build(rules(&["||ads.example^", "banner$important,image"]), true);
    let exceptions =
        FilterIndex::build(rules(&["@@||ads.example/ok^", "@@ok", "@@||ads.example^$script"]), true);
    let req = Request::new("https://ads.example/ok", "https://news.example", "script").unwrap();
    assert_eq!(find_block(&blocks, &req), (true, false));
    assert_eq!(find_exception(&exceptions, &req), Some(2));
    assert_eq!(check(&blocks, &exceptions, &req), MatchResult { matched: true, exception: Some(2) });
    let req = Request::new("https://ads.example/ok/banner", "https://news.example", "image").unwrap();
    assert_eq!(find_block(&blocks, &req), (true, true));
    assert_eq!(find_exception(&exceptions, &req), Some(0));
    assert_eq!(check(&blocks, &exceptions, &req), MatchResult { matched: true, exception: None });
    let req = Request::new("https://else.example/", "https://news.example", "image").unwrap();
    assert_eq!(find_block(&blocks, &req), (false, false));
    assert_eq!(find_exception(&exceptions, &req), None);
    assert_eq!(check(&blocks, &exceptions, &req), MatchResult { matched: false, exception: None });
    assert!(any_rule_matches(&rules(&["zz", "||else.example^"]), &req));
    assert!(!any_rule_matches(&rules(&["zz", "||other.example^"]), &req));
    assert!(!any_rule_matches(&Vec::new(), &req));
}
