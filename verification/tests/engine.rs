use adblock_engine::engine::{Engine, EngineError, FilterSet, LoadReport};
use adblock_engine::network::MatchResult;
use adblock_engine::request::Request;

#[test]
fn queries_before_finalize_are_refused() {
    let mut engine = Engine::new();
    assert!(!engine.is_ready());
    assert!(engine.load("||ads.example^\n##.ad").is_ok());
    let req = Request::new("https://ads.example/x", "https://example.com", "script").unwrap();
    assert_eq!(engine.check_network_request(&req), Err(EngineError::NotReady));
    assert!(matches!(
        engine.url_cosmetic_resources("https://example.com/"),
        Err(EngineError::NotReady)
    ));
    assert!(matches!(engine.url_cosmetic_resources("nonsense"), Err(EngineError::NotReady)));
    let engine = engine.finalize();
    assert!(engine.is_ready());
    assert_eq!(
        engine.check_network_request(&req),
        Ok(MatchResult { matched: true, exception: None })
    );
    let res = engine.url_cosmetic_resources("https://example.com/").unwrap();
    assert_eq!(res.hide_selectors, vec![b".ad".to_vec()]);
}

#[test]
fn finalized_engine_takes_no_more_rules() {
    let mut engine = Engine::new();
    engine.load("||ads.example^").unwrap();
    let mut engine = engine.finalize();
    assert_eq!(engine.load("||more.example^"), Err(EngineError::Finalized));
    let req = Request::new("https://more.example/", "https://example.com", "image").unwrap();
    assert_eq!(
        engine.check_network_request(&req),
        Ok(MatchResult { matched: false, exception: None })
    );
    let engine = engine.finalize();
    assert!(engine.is_ready());
    assert_eq!(
        engine.check_network_request(&req),
        Ok(MatchResult { matched: false, exception: None })
    );
}

#[test]
fn load_may_be_called_several_times() {
    let mut engine = Engine::new();
    engine.load("||ads.example^").unwrap();
    engine.load("@@||ads.example/ok^\n||tracker.example^").unwrap();
    let engine = engine.finalize();
    let blocked = Request::new("https://tracker.example/p", "https://example.com", "image").unwrap();
    let allowed = Request::new("https://ads.example/ok", "https://example.com", "image").unwrap();
    assert!(engine.check_network_request(&blocked).unwrap().is_blocked());
    let verdict = engine.check_network_request(&allowed).unwrap();
    assert_eq!(verdict, MatchResult { matched: true, exception: Some(0) });
    assert!(!verdict.is_blocked());
}

#[test]
fn load_report_counts_lines_rules_and_refusals() {
    let mut set = FilterSet::new();
    let report = set.add_filter_list("||a.example^\n! comment\n\nbad rule here\n##.ad\r\n[Adblock]");
    assert_eq!(report, LoadReport { lines: 6, rules: 2, rejected: 1 });
    let report = set.add_filter_list("");
    assert_eq!(report, LoadReport { lines: 1, rules: 0, rejected: 0 });
    let report = set.add_filter_list("/(regex)/\n||b.example^$bogus\n@@||c.example^\n");
    assert_eq!(report, LoadReport { lines: 4, rules: 1, rejected: 2 });
    let mut engine = Engine::new();
    assert_eq!(
        engine.load("a.example##.x\nb.example#@#.x\n#?#nope"),
        Ok(LoadReport { lines: 3, rules: 2, rejected: 1 })
    );
}

#[test]
fn one_rule_among_garbage_is_the_only_rule() {
    let mut set = FilterSet::new();
    let report = set
        .add_filter_list("this is not a rule\n||ads.example^\n||x.example^$no-such-option\n/ads(7|8)/");
    assert_eq!(report, LoadReport { lines: 4, rules: 1, rejected: 3 });
    let engine = Engine::from_filter_set(set, true);
    let hit = Request::new("https://ads.example/x", "https://example.com", "document").unwrap();
    let miss = Request::new("https://x.example/ads7/", "https://example.com", "document").unwrap();
    assert_eq!(
        engine.check_network_request(&hit),
        Ok(MatchResult { matched: true, exception: None })
    );
    assert_eq!(
        engine.check_network_request(&miss),
        Ok(MatchResult { matched: false, exception: None })
    );
}

#[test]
fn invalid_page_url_is_invalid_input() {
    let engine = Engine::from_filter_set(FilterSet::new(), true);
    assert!(matches!(engine.url_cosmetic_resources("not a url"), Err(EngineError::InvalidInput)));
    assert!(matches!(engine.url_cosmetic_resources(""), Err(EngineError::InvalidInput)));
    let res = engine.url_cosmetic_resources("https://example.com/").unwrap();
    assert!(res.hide_selectors.is_empty());
    assert!(res.style_selectors.is_empty());
    assert!(res.exceptions.is_empty());
    assert!(res.injected_script.is_empty());
    assert!(!res.generichide);
}

#[test]
fn most_specific_exception_is_reported() {
    let mut set = FilterSet::new();
    set.add_filter_list(
        "||ads.example^\n@@ads\n@@||ads.example^\n@@||ads.example^$image\n@@||ads.example/banner^$image",
    );
    let engine = Engine::from_filter_set(set, true);
    let image = Request::new("https://ads.example/banner", "https://example.com", "image").unwrap();
    assert_eq!(
        engine.check_network_request(&image),
        Ok(MatchResult { matched: true, exception: Some(3) })
    );
    let other = Request::new("https://ads.example/x", "https://example.com", "image").unwrap();
    assert_eq!(
        engine.check_network_request(&other),
        Ok(MatchResult { matched: true, exception: Some(2) })
    );
    let script = Request::new("https://ads.example/x", "https://example.com", "script").unwrap();
    assert_eq!(
        engine.check_network_request(&script),
        Ok(MatchResult { matched: true, exception: Some(1) })
    );
}

#[test]
fn reported_exception_can_be_looked_up() {
    let mut engine = Engine::new();
    engine.load("@@||ads.example/ok^\n||ads.example^\n@@ok$image").unwrap();
    assert!(engine.exception_rule(0).is_none());
    let engine = engine.finalize();
    let rule = engine.exception_rule(0).unwrap();
    assert!(rule.exception);
    assert_eq!(rule.body, b"ads.example/ok^".to_vec());
    assert_eq!(rule.raw, b"||ads.example/ok^".to_vec());
    assert_eq!(engine.exception_rule(1).unwrap().body, b"ok".to_vec());
    assert!(engine.exception_rule(2).is_none());
}

fn shared<T: Send + Sync>(value: T) -> T {
    value
}

#[test]
fn engine_handle_can_be_shared() {
    let handle = shared(adblock_engine::boundary::engine_create("||ads.example^"));
    assert!(adblock_engine::boundary::engine_match(
        &handle,
        "https://ads.example/",
        "",
        "example.com"
    ));
    let engine = shared(Engine::new().finalize());
    assert!(engine.is_ready());
}

#[test]
fn equally_specific_exceptions_first_wins() {
    let mut set = FilterSet::new();
    set.add_filter_list("@@/one/two\n@@one/two/\n@@/one/tw");
    let engine = Engine::from_filter_set(set, true);
    let req = Request::new("https://a.example/one/two/", "https://a.example", "image").unwrap();
    assert_eq!(
        engine.check_network_request(&req),
        Ok(MatchResult { matched: false, exception: Some(0) })
    );
}

#[test]
fn important_match_reports_no_exception() {
    let mut set = FilterSet::new();
    set.add_filter_list("||ads.example^\n||ads.example/x$important\n@@||ads.example^");
    let engine = Engine::from_filter_set(set, true);
    let hit = Request::new("https://ads.example/x", "https://example.com", "image").unwrap();
    assert_eq!(
        engine.check_network_request(&hit),
        Ok(MatchResult { matched: true, exception: None })
    );
    let miss = Request::new("https://ads.example/y", "https://example.com", "image").unwrap();
    assert_eq!(
        engine.check_network_request(&miss),
        Ok(MatchResult { matched: true, exception: Some(0) })
    );
}

#[test]
fn bucketed_and_plain_engines_agree() {
    let text = "||ads.example^\nad\n*banner*\n|https://x.example/|\n@@||ads.example/ok^\n\
                ||cdn.example^$script,third-party\n@@*$domain=trusted.example";
    let urls = [
        "https://ads.example/x",
        "https://ads.example/ok",
        "https://x.example/",
        "https://x.example/y",
        "https://cdn.example/lib.js",
        "https://site.example/img/banner.png",
        "https://site.example/road",
        "https://site.example/",
    ];
    let mut a = FilterSet::new();
    a.add_filter_list(text);
    let mut b = FilterSet::new();
    b.add_filter_list(text);
    let keyed = Engine::from_filter_set(a, true);
    let plain = Engine::from_filter_set(b, false);
    for url in urls {
        for source in ["https://site.example", "https://trusted.example", "https://cdn.example"] {
            for kind in ["script", "image"] {
                let req = Request::new(url, source, kind).unwrap();
                assert_eq!(
                    keyed.check_network_request(&req),
                    plain.check_network_request(&req)
                );
            }
        }
    }
    let req = Request::new("https://cdn.example/lib.js", "https://site.example", "script").unwrap();
    assert!(keyed.check_network_request(&req).unwrap().is_blocked());
    let req = Request::new("https://cdn.example/lib.js", "https://trusted.example", "script").unwrap();
    assert!(!keyed.check_network_request(&req).unwrap().is_blocked());
}

#[test]
fn generichide_rule_decides_on_no_request() {
    let mut set = FilterSet::new();
    set.add_filter_list("||ads.example^$generichide\n@@||site.example^$generichide");
    let engine = Engine::from_filter_set(set, true);
    let req = Request::new("https://ads.example/x", "https://site.example", "image").unwrap();
    assert_eq!(
        engine.check_network_request(&req),
        Ok(MatchResult { matched: false, exception: None })
    );
    assert!(engine.url_cosmetic_resources("https://ads.example/").unwrap().generichide);
    assert!(engine.url_cosmetic_resources("https://site.example/").unwrap().generichide);
    assert!(!engine.url_cosmetic_resources("https://else.example/").unwrap().generichide);
}
