//! The rule accumulator and the engine built from it.
//!
//! Rules are gathered from one or more filter lists into a `FilterSet`. An
//! `Engine` is loaded in the same way and then finalized; only a finalized
//! engine answers queries, and a finalized engine takes no more rules.

use vstd::prelude::*;
use vstd::string::*;
use crate::cosmetic::{
    cosmetic_views, lemma_generichide_leaves_scoped, resources_of, CosmeticIndex,
    UrlSpecificResources, UrlSpecificResourcesView,
};
use crate::index::{rule_views, FilterIndex};
use crate::network::{any_match, blocked, check, decides, should_block, MatchResult};
use crate::parser::{line_meaning, parse_line, ParsedLine, ParsedLineView};
use crate::request::{request_of, Request, RequestView};
use crate::rule::{CosmeticRule, CosmeticRuleView, NetworkRule, NetworkRuleView};
use crate::text::{split, split_spans};

verus! {

/// Why the engine refused an operation.
#[derive(Clone, Copy, Debug, PartialEq, Eq, Structural)]
pub enum EngineError {
    /// A query was made before the engine was finalized.
    NotReady,
    /// Rules were offered to an engine that is finalized.
    Finalized,
    /// The URL of a query is not a well-formed absolute URL.
    InvalidInput,
}

/// What loading one filter list did.
#[derive(Clone, Copy, Debug, PartialEq, Eq, Structural)]
pub struct LoadReport {
    /// Lines seen: the pieces of the text between line feeds.
    pub lines: usize,
    /// Lines that gave a rule.
    pub rules: usize,
    /// Lines that were refused as malformed or unsupported.
    pub rejected: usize,
}

/// Rules gathered from filter lists, by kind, in the order in which they came.
pub struct FilterSet {
    blocks: Vec<NetworkRule>,
    exceptions: Vec<NetworkRule>,
    generichide: Vec<NetworkRule>,
    cosmetic: Vec<CosmeticRule>,
    cosmetic_exceptions: Vec<CosmeticRule>,
}

/// The rules of a set, by kind.
pub struct FilterSetView {
    /// Network rules that block.
    pub blocks: Seq<NetworkRuleView>,
    /// Network rules that exempt.
    pub exceptions: Seq<NetworkRuleView>,
    /// Network rules with the `generichide` option; they decide on no request.
    pub generichide: Seq<NetworkRuleView>,
    /// Cosmetic rules that hide or inject.
    pub cosmetic: Seq<CosmeticRuleView>,
    /// Cosmetic rules that cancel.
    pub cosmetic_exceptions: Seq<CosmeticRuleView>,
}

impl FilterSetView {
    /// How many rules the set holds.
    pub open spec fn total(self) -> nat {
        self.blocks.len() + self.exceptions.len() + self.generichide.len() + self.cosmetic.len()
            + self.cosmetic_exceptions.len()
    }
}

/// The set that holds no rule.
pub open spec fn no_rules() -> FilterSetView {
    FilterSetView {
        blocks: Seq::empty(),
        exceptions: Seq::empty(),
        generichide: Seq::empty(),
        cosmetic: Seq::empty(),
        cosmetic_exceptions: Seq::empty(),
    }
}

/// A set with the rule of one more line, if the line gives one.
pub open spec fn with_line(set: FilterSetView, line: Seq<u8>) -> FilterSetView {
    match line_meaning(line) {
        Ok(ParsedLineView::Network(r)) => if r.generichide {
            FilterSetView { generichide: set.generichide.push(r), ..set }
        } else if r.exception {
            FilterSetView { exceptions: set.exceptions.push(r), ..set }
        } else {
            FilterSetView { blocks: set.blocks.push(r), ..set }
        },
        Ok(ParsedLineView::Cosmetic(r)) => if r.exception {
            FilterSetView { cosmetic_exceptions: set.cosmetic_exceptions.push(r), ..set }
        } else {
            FilterSetView { cosmetic: set.cosmetic.push(r), ..set }
        },
        _ => set,
    }
}

/// A set with the rules of the first `n` lines.
pub open spec fn with_lines(set: FilterSetView, lines: Seq<Seq<u8>>, n: int) -> FilterSetView
    decreases n,
{
    if n <= 0 {
        set
    } else {
        with_line(with_lines(set, lines, n - 1), lines[n - 1])
    }
}

/// The lines of a filter list.
pub open spec fn lines_of(text: Seq<u8>) -> Seq<Seq<u8>> {
    split(text, 0x0a)
}

/// A set with the rules of one more filter list.
pub open spec fn with_list(set: FilterSetView, text: Seq<u8>) -> FilterSetView {
    with_lines(set, lines_of(text), lines_of(text).len() as int)
}

/// A line that is refused leaves the rules as they were: a malformed line
/// does not abort a load.
pub proof fn lemma_refused_line_adds_nothing(set: FilterSetView, line: Seq<u8>)
    requires
        line_meaning(line) is Err,
    ensures
        with_line(set, line) == set,
{
}

/// One sequence begins with another.
pub open spec fn extends<T>(longer: Seq<T>, shorter: Seq<T>) -> bool {
    shorter.len() <= longer.len() && longer.subrange(0, shorter.len() as int) == shorter
}

/// Loading keeps every rule that the set held, under the number it had:
/// rules are added at the end of their lists and never changed.
pub proof fn lemma_loading_keeps_rules(set: FilterSetView, lines: Seq<Seq<u8>>, n: int)
    ensures
        extends(with_lines(set, lines, n).blocks, set.blocks),
        extends(with_lines(set, lines, n).exceptions, set.exceptions),
        extends(with_lines(set, lines, n).generichide, set.generichide),
        extends(with_lines(set, lines, n).cosmetic, set.cosmetic),
        extends(with_lines(set, lines, n).cosmetic_exceptions, set.cosmetic_exceptions),
    decreases n,
{
    if n > 0 {
        lemma_loading_keeps_rules(set, lines, n - 1);
        let before = with_lines(set, lines, n - 1);
        let after = with_lines(set, lines, n);
        assert(after.blocks.subrange(0, set.blocks.len() as int) =~= set.blocks);
        assert(after.exceptions.subrange(0, set.exceptions.len() as int) =~= set.exceptions);
        assert(after.generichide.subrange(0, set.generichide.len() as int) =~= set.generichide);
        assert(after.cosmetic.subrange(0, set.cosmetic.len() as int) =~= set.cosmetic);
        assert(after.cosmetic_exceptions.subrange(0, set.cosmetic_exceptions.len() as int)
            =~= set.cosmetic_exceptions);
    } else {
        assert(set.blocks.subrange(0, set.blocks.len() as int) =~= set.blocks);
        assert(set.exceptions.subrange(0, set.exceptions.len() as int) =~= set.exceptions);
        assert(set.generichide.subrange(0, set.generichide.len() as int) =~= set.generichide);
        assert(set.cosmetic.subrange(0, set.cosmetic.len() as int) =~= set.cosmetic);
        assert(set.cosmetic_exceptions.subrange(0, set.cosmetic_exceptions.len() as int)
            =~= set.cosmetic_exceptions);
    }
}

/// How many of the first `n` lines are refused.
pub open spec fn rejected_among(lines: Seq<Seq<u8>>, n: int) -> int
    decreases n,
{
    if n <= 0 {
        0
    } else {
        rejected_among(lines, n - 1) + if line_meaning(lines[n - 1]) is Err {
            1int
        } else {
            0int
        }
    }
}

/// What loading `text` into `set` reports.
pub open spec fn reports(set: FilterSetView, text: Seq<u8>, report: LoadReport) -> bool {
    &&& report.lines == lines_of(text).len()
    &&& report.rules == with_list(set, text).total() - set.total()
    &&& report.rejected == rejected_among(lines_of(text), lines_of(text).len() as int)
}

impl View for FilterSet {
    type V = FilterSetView;

    closed spec fn view(&self) -> FilterSetView {
        FilterSetView {
            blocks: rule_views(self.blocks@),
            exceptions: rule_views(self.exceptions@),
            generichide: rule_views(self.generichide@),
            cosmetic: cosmetic_views(self.cosmetic@),
            cosmetic_exceptions: cosmetic_views(self.cosmetic_exceptions@),
        }
    }
}

impl FilterSet {
    /// A set without rules.
    pub fn new() -> (set: FilterSet)
        ensures
            set@ == no_rules(),
    {
        let set = FilterSet {
            blocks: Vec::new(),
            exceptions: Vec::new(),
            generichide: Vec::new(),
            cosmetic: Vec::new(),
            cosmetic_exceptions: Vec::new(),
        };
        assert(set@.blocks =~= Seq::<NetworkRuleView>::empty());
        assert(set@.exceptions =~= Seq::<NetworkRuleView>::empty());
        assert(set@.generichide =~= Seq::<NetworkRuleView>::empty());
        assert(set@.cosmetic =~= Seq::<CosmeticRuleView>::empty());
        assert(set@.cosmetic_exceptions =~= Seq::<CosmeticRuleView>::empty());
        set
    }

    /// Puts the rule of one parsed line into the set.
    fn add_parsed(&mut self, parsed: ParsedLine)
        ensures
            final(self)@ == (match parsed@ {
                ParsedLineView::Network(r) => if r.generichide {
                    FilterSetView { generichide: old(self)@.generichide.push(r), ..old(self)@ }
                } else if r.exception {
                    FilterSetView { exceptions: old(self)@.exceptions.push(r), ..old(self)@ }
                } else {
                    FilterSetView { blocks: old(self)@.blocks.push(r), ..old(self)@ }
                },
                ParsedLineView::Cosmetic(r) => if r.exception {
                    FilterSetView {
                        cosmetic_exceptions: old(self)@.cosmetic_exceptions.push(r),
                        ..old(self)@
                    }
                } else {
                    FilterSetView { cosmetic: old(self)@.cosmetic.push(r), ..old(self)@ }
                },
                ParsedLineView::Ignored => old(self)@,
            }),
    {
        match parsed {
            ParsedLine::Ignored => {},
            ParsedLine::Network(rule) => {
                if rule.generichide {
                    let ghost before = self.generichide@;
                    self.generichide.push(rule);
                    assert(rule_views(self.generichide@) =~= rule_views(before).push(rule@));
                } else if rule.exception {
                    let ghost before = self.exceptions@;
                    self.exceptions.push(rule);
                    assert(rule_views(self.exceptions@) =~= rule_views(before).push(rule@));
                } else {
                    let ghost before = self.blocks@;
                    self.blocks.push(rule);
                    assert(rule_views(self.blocks@) =~= rule_views(before).push(rule@));
                }
            },
            ParsedLine::Cosmetic(rule) => {
                if rule.exception {
                    let ghost before = self.cosmetic_exceptions@;
                    self.cosmetic_exceptions.push(rule);
                    assert(cosmetic_views(self.cosmetic_exceptions@) =~= cosmetic_views(before).push(
                        rule@,
                    ));
                } else {
                    let ghost before = self.cosmetic@;
                    self.cosmetic.push(rule);
                    assert(cosmetic_views(self.cosmetic@) =~= cosmetic_views(before).push(rule@));
                }
            },
        }
    }

    /// Adds the rules of one filter list, given as bytes. Lines that are
    /// refused are counted and passed over.
    pub fn add_filter_bytes(&mut self, text: &[u8]) -> (report: LoadReport)
        ensures
            final(self)@ == with_list(old(self)@, text@),
            reports(old(self)@, text@, report),
    {
        let spans = split_spans(text, 0x0a);
        let ghost lines = lines_of(text@);
        let ghost start = self@;
        let mut rules: usize = 0;
        let mut rejected: usize = 0;
        let mut k: usize = 0;
        while k < spans.len()
            invariant
                k <= spans@.len(),
                spans@.len() == lines.len(),
                lines == lines_of(text@),
                forall|j: int|
                    0 <= j < spans@.len() ==> (#[trigger] spans@[j]).0 <= spans@[j].1 <= text@.len()
                        && text@.subrange(spans@[j].0 as int, spans@[j].1 as int) == lines[j],
                self@ == with_lines(start, lines, k as int),
                rules <= k,
                rejected <= k,
                rules == self@.total() - start.total(),
                rejected == rejected_among(lines, k as int),
            decreases spans@.len() - k,
        {
            let span = spans[k];
            match parse_line(&text[span.0..span.1]) {
                Ok(parsed) => {
                    match parsed {
                        ParsedLine::Ignored => {},
                        _ => {
                            rules += 1;
                        },
                    }
                    self.add_parsed(parsed);
                },
                Err(_) => {
                    rejected += 1;
                },
            }
            k += 1;
        }
        LoadReport { lines: spans.len(), rules, rejected }
    }

    /// Adds the rules of one filter list.
    pub fn add_filter_list(&mut self, text: &str) -> (report: LoadReport)
        ensures
            final(self)@ == with_list(old(self)@, text.spec_bytes()),
            reports(old(self)@, text.spec_bytes(), report),
    {
        self.add_filter_bytes(text.as_bytes())
    }
}

/// Whether some rule of the list matches the request.
pub fn any_rule_matches(rules: &Vec<NetworkRule>, req: &Request) -> (r: bool)
    ensures
        r == any_match(rule_views(rules@), req@),
{
    let ghost rv = rule_views(rules@);
    let mut k: usize = 0;
    while k < rules.len()
        invariant
            k <= rules@.len(),
            rv == rule_views(rules@),
            forall|j: int| 0 <= j < k ==> !crate::rule::rule_matches(#[trigger] rv[j], req@),
        decreases rules@.len() - k,
    {
        assert(rv[k as int] == rules@[k as int]@);
        if rules[k].matches(req) {
            return true;
        }
        k += 1;
    }
    false
}

/// The request for a page itself: the page's URL, asked for by the page, as a document.
pub open spec fn page_request(url: Seq<u8>) -> Option<RequestView> {
    request_of(url, url, "document".spec_bytes())
}

/// The cosmetic resources of a page under a set of rules. Generic hiding is
/// off for the page when a `generichide` rule matches the page's request.
pub open spec fn page_resources(set: FilterSetView, page: RequestView) -> UrlSpecificResourcesView {
    resources_of(
        set.cosmetic,
        set.cosmetic_exceptions,
        page.host(),
        any_match(set.generichide, page),
    )
}

/// When a `generichide` rule matches the page's request, generic hiding is
/// off for the page, and every selector hidden on it comes from a rule that
/// names a domain to apply on and applies on the page's host.
pub proof fn lemma_generichide_page(set: FilterSetView, page: RequestView, selector: Seq<u8>)
    requires
        any_match(set.generichide, page),
        page_resources(set, page).hide_selectors.contains(selector),
    ensures
        page_resources(set, page).generichide,
        exists|i: int|
            0 <= i < set.cosmetic.len() && !(#[trigger] set.cosmetic[i]).script
                && set.cosmetic[i].body == selector && !set.cosmetic[i].is_generic()
                && set.cosmetic[i].applies_to(page.host()),
{
    lemma_generichide_leaves_scoped(
        set.cosmetic,
        set.cosmetic_exceptions,
        page.host(),
        selector,
    );
}

/// The rules of a finalized engine, with the network rules indexed.
struct Compiled {
    blocks: FilterIndex,
    exceptions: FilterIndex,
    generichide: Vec<NetworkRule>,
    cosmetic: CosmeticIndex,
}

impl Compiled {
    /// The rules, by kind.
    spec fn rules(&self) -> FilterSetView {
        FilterSetView {
            blocks: self.blocks@,
            exceptions: self.exceptions@,
            generichide: rule_views(self.generichide@),
            cosmetic: self.cosmetic@.0,
            cosmetic_exceptions: self.cosmetic@.1,
        }
    }

    /// Indexes the rules of a set.
    fn build(set: FilterSet, keyed: bool) -> (c: Compiled)
        ensures
            c.rules() == set@,
    {
        let FilterSet { blocks, exceptions, generichide, cosmetic, cosmetic_exceptions } = set;
        Compiled {
            blocks: FilterIndex::build(blocks, keyed),
            exceptions: FilterIndex::build(exceptions, keyed),
            generichide,
            cosmetic: CosmeticIndex::build(cosmetic, cosmetic_exceptions),
        }
    }
}

/// The filtering engine.
pub struct Engine {
    pending: FilterSet,
    compiled: Option<Compiled>,
}

/// What an engine is to its callers.
pub struct EngineView {
    /// The engine is finalized and answers queries.
    pub ready: bool,
    /// The rules that the engine holds.
    pub rules: FilterSetView,
}

impl View for Engine {
    type V = EngineView;

    closed spec fn view(&self) -> EngineView {
        match self.compiled {
            Some(c) => EngineView { ready: true, rules: c.rules() },
            None => EngineView { ready: false, rules: self.pending@ },
        }
    }
}

impl Engine {
    /// An engine without rules that is not finalized.
    pub fn new() -> (e: Engine)
        ensures
            e@ == (EngineView { ready: false, rules: no_rules() }),
    {
        Engine { pending: FilterSet::new(), compiled: None }
    }

    /// A finalized engine over the rules of `set`. With `optimize` unset the
    /// rules are not bucketed; the answers are the same.
    pub fn from_filter_set(set: FilterSet, optimize: bool) -> (e: Engine)
        ensures
            e@ == (EngineView { ready: true, rules: set@ }),
    {
        Engine { pending: FilterSet::new(), compiled: Some(Compiled::build(set, optimize)) }
    }

    /// Adds the rules of one filter list to an engine that is not finalized.
    /// A finalized engine refuses and stays as it is.
    pub fn load(&mut self, text: &str) -> (r: Result<LoadReport, EngineError>)
        ensures
            match r {
                Ok(report) => !old(self)@.ready && final(self)@ == (EngineView {
                    ready: false,
                    rules: with_list(old(self)@.rules, text.spec_bytes()),
                }) && reports(old(self)@.rules, text.spec_bytes(), report),
                Err(e) => old(self)@.ready && e == EngineError::Finalized && final(self)@ == old(
                    self,
                )@,
            },
    {
        if self.compiled.is_some() {
            Err(EngineError::Finalized)
        } else {
            Ok(self.pending.add_filter_list(text))
        }
    }

    /// Finalizes the engine: its rules are indexed, and it answers queries
    /// from now on. Finalizing a finalized engine changes nothing.
    pub fn finalize(self) -> (e: Engine)
        ensures
            e@ == (EngineView { ready: true, rules: self@.rules }),
    {
        let Engine { pending, compiled } = self;
        match compiled {
            Some(c) => Engine { pending, compiled: Some(c) },
            None => Engine {
                pending: FilterSet::new(),
                compiled: Some(Compiled::build(pending, true)),
            },
        }
    }

    /// Whether the engine is finalized.
    pub fn is_ready(&self) -> (r: bool)
        ensures
            r == self@.ready,
    {
        self.compiled.is_some()
    }

    /// Decides one network request.
    pub fn check_network_request(&self, req: &Request) -> (r: Result<MatchResult, EngineError>)
        ensures
            match r {
                Ok(res) => self@.ready && decides(
                    self@.rules.blocks,
                    self@.rules.exceptions,
                    req@,
                    res,
                ) && blocked(res) == should_block(self@.rules.blocks, self@.rules.exceptions, req@),
                Err(e) => !self@.ready && e == EngineError::NotReady,
            },
    {
        match &self.compiled {
            Some(c) => Ok(check(&c.blocks, &c.exceptions, req)),
            None => Err(EngineError::NotReady),
        }
    }

    /// The exception rule with the number that a verdict reports.
    pub fn exception_rule(&self, number: usize) -> (r: Option<&NetworkRule>)
        ensures
            match r {
                Some(rule) => self@.ready && number < self@.rules.exceptions.len() && rule@
                    == self@.rules.exceptions[number as int],
                None => !self@.ready || number >= self@.rules.exceptions.len(),
            },
    {
        match &self.compiled {
            Some(c) => if number < c.exceptions.len() {
                Some(c.exceptions.rule(number))
            } else {
                None
            },
            None => None,
        }
    }

    /// Resolves the cosmetic resources of the page at `url`, given as bytes.
    pub fn cosmetic_resources(&self, url: &[u8]) -> (r: Result<UrlSpecificResources, EngineError>)
        ensures
            match r {
                Ok(res) => self@.ready && page_request(url@) is Some && res@ == page_resources(
                    self@.rules,
                    page_request(url@)->0,
                ),
                Err(e) => if self@.ready {
                    page_request(url@) is None && e == EngineError::InvalidInput
                } else {
                    e == EngineError::NotReady
                },
            },
    {
        match &self.compiled {
            None => Err(EngineError::NotReady),
            Some(c) => {
                match Request::from_bytes(url, url, "document".as_bytes()) {
                    Err(_) => Err(EngineError::InvalidInput),
                    Ok(page) => {
                        let generichide = any_rule_matches(&c.generichide, &page);
                        let span = page.host_span();
                        let host = &page.url()[span.0..span.1];
                        Ok(c.cosmetic.resolve(host, generichide))
                    },
                }
            },
        }
    }

    /// Resolves the cosmetic resources of the page at `url`.
    pub fn url_cosmetic_resources(&self, url: &str) -> (r: Result<
        UrlSpecificResources,
        EngineError,
    >)
        ensures
            match r {
                Ok(res) => self@.ready && page_request(url.spec_bytes()) is Some && res@
                    == page_resources(self@.rules, page_request(url.spec_bytes())->0),
                Err(e) => if self@.ready {
                    page_request(url.spec_bytes()) is None && e == EngineError::InvalidInput
                } else {
                    e == EngineError::NotReady
                },
            },
    {
        self.cosmetic_resources(url.as_bytes())
    }
}

} // verus!
