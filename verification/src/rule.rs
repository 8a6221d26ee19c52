//! Parsed rules and what they demand of a request or a page.

use vstd::prelude::*;
use crate::pattern::{longest_literal, matches_url, pattern_matches, token_span, Anchor};
use crate::regex::{regex_matches, Regex, RegexView};
use crate::request::{Request, RequestView, ResourceType};
use crate::url::{host_under, is_host_under};

verus! {

/// The four kinds of rule.
#[derive(Clone, Copy, Debug, PartialEq, Eq, Structural)]
pub enum RuleKind {
    NetworkBlock,
    NetworkException,
    CosmeticHide,
    CosmeticException,
}

/// One entry of a domain list: a domain, or with `negated` its exclusion.
#[derive(Debug)]
pub struct DomainEntry {
    pub negated: bool,
    pub name: Vec<u8>,
}

/// What a domain entry holds.
pub struct DomainEntryView {
    pub negated: bool,
    pub name: Seq<u8>,
}

impl View for DomainEntry {
    type V = DomainEntryView;

    open spec fn view(&self) -> DomainEntryView {
        DomainEntryView { negated: self.negated, name: self.name@ }
    }
}

/// One entry of a resource-type list.
#[derive(Clone, Copy, Debug, PartialEq, Eq, Structural)]
pub struct TypeEntry {
    pub negated: bool,
    pub rtype: ResourceType,
}

/// The views of a list of domain entries.
pub open spec fn domain_views(v: Seq<DomainEntry>) -> Seq<DomainEntryView> {
    Seq::new(v.len(), |i: int| v[i]@)
}

/// Some entry of the list names a domain to include.
pub open spec fn has_positive_domain(domains: Seq<DomainEntryView>) -> bool {
    exists|k: int| 0 <= k < domains.len() && !(#[trigger] domains[k]).negated
}

/// A domain list admits a host: no excluded domain holds the host, and if
/// the list includes any domain, one of those holds the host.
pub open spec fn domains_permit(domains: Seq<DomainEntryView>, host: Seq<u8>) -> bool {
    &&& forall|k: int|
        0 <= k < domains.len() && (#[trigger] domains[k]).negated ==> !host_under(
            host,
            domains[k].name,
        )
    &&& has_positive_domain(domains) ==> exists|k: int|
        0 <= k < domains.len() && !(#[trigger] domains[k]).negated && host_under(
            host,
            domains[k].name,
        )
}

/// Some entry of the list names a type to include.
pub open spec fn has_positive_type(types: Seq<TypeEntry>) -> bool {
    exists|k: int| 0 <= k < types.len() && !(#[trigger] types[k]).negated
}

/// A type list admits a resource type: it is not excluded, and if the list
/// includes any type, it is one of them.
pub open spec fn types_permit(types: Seq<TypeEntry>, t: ResourceType) -> bool {
    &&& forall|k: int| 0 <= k < types.len() && (#[trigger] types[k]).negated ==> types[k].rtype != t
    &&& has_positive_type(types) ==> exists|k: int|
        0 <= k < types.len() && !(#[trigger] types[k]).negated && types[k].rtype == t
}

/// Whether a domain list admits a host.
pub fn check_domains(domains: &Vec<DomainEntry>, host: &[u8]) -> (r: bool)
    ensures
        r == domains_permit(domain_views(domains@), host@),
{
    let ghost dv = domain_views(domains@);
    let mut positive = false;
    let mut hit = false;
    let mut k: usize = 0;
    while k < domains.len()
        invariant
            k <= domains@.len(),
            dv == domain_views(domains@),
            forall|j: int|
                0 <= j < k && (#[trigger] dv[j]).negated ==> !host_under(host@, dv[j].name),
            positive == (exists|j: int| 0 <= j < k && !(#[trigger] dv[j]).negated),
            hit == (exists|j: int|
                0 <= j < k && !(#[trigger] dv[j]).negated && host_under(host@, dv[j].name)),
        decreases domains@.len() - k,
    {
        let entry = &domains[k];
        let under = is_host_under(host, entry.name.as_slice());
        assert(dv[k as int] == entry@);
        if entry.negated {
            if under {
                return false;
            }
        } else {
            positive = true;
            if under {
                hit = true;
            }
        }
        k += 1;
    }
    !positive || hit
}

/// Whether a type list admits a resource type.
pub fn check_types(types: &Vec<TypeEntry>, t: ResourceType) -> (r: bool)
    ensures
        r == types_permit(types@, t),
{
    let mut positive = false;
    let mut hit = false;
    let mut k: usize = 0;
    while k < types.len()
        invariant
            k <= types@.len(),
            forall|j: int| 0 <= j < k && (#[trigger] types@[j]).negated ==> types@[j].rtype != t,
            positive == (exists|j: int| 0 <= j < k && !(#[trigger] types@[j]).negated),
            hit == (exists|j: int|
                0 <= j < k && !(#[trigger] types@[j]).negated && types@[j].rtype == t),
        decreases types@.len() - k,
    {
        let entry = types[k];
        let same = entry.rtype == t;
        if entry.negated {
            if same {
                return false;
            }
        } else {
            positive = true;
            if same {
                hit = true;
            }
        }
        k += 1;
    }
    !positive || hit
}

/// A rule on network requests.
#[derive(Debug)]
pub struct NetworkRule {
    /// The pattern as it was written, with its anchors or slashes.
    pub raw: Vec<u8>,
    /// The rule exempts what it matches (`@@`).
    pub exception: bool,
    /// Where a match may begin.
    pub left: Anchor,
    /// A match must reach the end of the URL.
    pub right: bool,
    /// The pattern body, lower-cased, without anchors.
    pub body: Vec<u8>,
    /// A regular expression that the URL must match as well; a rule written
    /// as a regular expression has an empty body.
    pub regex: Option<Regex>,
    /// The rule overrides every exception.
    pub important: bool,
    /// The rule switches generic hiding off on the pages it matches.
    pub generichide: bool,
    /// The rule applies to third-party requests.
    pub third_party: bool,
    /// The rule applies to first-party requests.
    pub first_party: bool,
    /// The resource types named in the options.
    pub types: Vec<TypeEntry>,
    /// The page domains named in the options.
    pub domains: Vec<DomainEntry>,
}

/// What a network rule holds.
pub struct NetworkRuleView {
    pub raw: Seq<u8>,
    pub exception: bool,
    pub left: Anchor,
    pub right: bool,
    pub body: Seq<u8>,
    pub regex: Option<RegexView>,
    pub important: bool,
    pub generichide: bool,
    pub third_party: bool,
    pub first_party: bool,
    pub types: Seq<TypeEntry>,
    pub domains: Seq<DomainEntryView>,
}

impl View for NetworkRule {
    type V = NetworkRuleView;

    open spec fn view(&self) -> NetworkRuleView {
        NetworkRuleView {
            raw: self.raw@,
            exception: self.exception,
            left: self.left,
            right: self.right,
            body: self.body@,
            regex: match self.regex {
                Some(re) => Some(re@),
                None => None,
            },
            important: self.important,
            generichide: self.generichide,
            third_party: self.third_party,
            first_party: self.first_party,
            types: self.types@,
            domains: domain_views(self.domains@),
        }
    }
}

/// The party options of a rule admit a request: a rule that names neither
/// party, or both, admits all.
pub open spec fn party_permits(rule: NetworkRuleView, third_party: bool) -> bool {
    (rule.third_party == rule.first_party) || (rule.third_party && third_party) || (
    rule.first_party && !third_party)
}

/// The regular expression of a rule, if it has one, matches the URL.
pub open spec fn regex_permits(rule: NetworkRuleView, url: Seq<u8>) -> bool {
    match rule.regex {
        Some(re) => regex_matches(re, url),
        None => true,
    }
}

/// A rule matches a request: its pattern and its regular expression match
/// the URL, and its party, type and domain options admit the request.
/// Domains are those of the page that made the request.
pub open spec fn rule_matches(rule: NetworkRuleView, req: RequestView) -> bool {
    &&& party_permits(rule, req.third_party)
    &&& types_permit(rule.types, req.request_type)
    &&& domains_permit(rule.domains, req.source_host)
    &&& pattern_matches(rule.body, rule.left, rule.right, req.url, req.host_start, req.host_end)
    &&& regex_permits(rule, req.url)
}

/// A rule for third-party requests only and a rule for first-party requests
/// only never match the same request, so a block of the one sort and an
/// exception of the other never meet.
pub proof fn lemma_parties_never_meet(a: NetworkRuleView, b: NetworkRuleView, req: RequestView)
    requires
        a.third_party && !a.first_party,
        b.first_party && !b.third_party,
    ensures
        !(rule_matches(a, req) && rule_matches(b, req)),
{
}

/// How many kinds of constraint a rule carries besides its pattern body.
pub open spec fn constraint_count(rule: NetworkRuleView) -> int {
    (if rule.domains.len() > 0 { 1int } else { 0int })
        + (if rule.types.len() > 0 { 1int } else { 0int })
        + (if rule.third_party != rule.first_party { 1int } else { 0int })
        + (if rule.left != Anchor::Free { 1int } else { 0int })
        + (if rule.right { 1int } else { 0int })
        + (if rule.regex is Some { 1int } else { 0int })
}

/// Rule `a` is more specific than rule `b`: it carries more constraints, or
/// as many and a longer pattern.
pub open spec fn outranks(a: NetworkRuleView, b: NetworkRuleView) -> bool {
    constraint_count(a) > constraint_count(b) || (constraint_count(a) == constraint_count(b)
        && a.body.len() > b.body.len())
}

impl NetworkRule {
    /// The kind of this rule.
    pub fn kind(&self) -> (k: RuleKind)
        ensures
            k == (if self@.exception { RuleKind::NetworkException } else { RuleKind::NetworkBlock }),
    {
        if self.exception {
            RuleKind::NetworkException
        } else {
            RuleKind::NetworkBlock
        }
    }

    /// The longest literal run of the pattern, under which the rule is indexed.
    pub fn token(&self) -> (t: &[u8])
        ensures
            t@ == self@.body.subrange(token_span(self@.body).0, token_span(self@.body).1),
    {
        let span = longest_literal(self.body.as_slice());
        &self.body.as_slice()[span.0..span.1]
    }

    /// Whether this rule matches a request.
    pub fn matches(&self, req: &Request) -> (r: bool)
        ensures
            r == rule_matches(self@, req@),
    {
        let third = req.is_third_party();
        if !((self.third_party == self.first_party) || (self.third_party && third) || (
        self.first_party && !third)) {
            return false;
        }
        if !check_types(&self.types, req.request_type()) {
            return false;
        }
        if !check_domains(&self.domains, req.source_host()) {
            return false;
        }
        let span = req.host_span();
        if !matches_url(self.body.as_slice(), self.left, self.right, req.url(), span.0, span.1) {
            return false;
        }
        match &self.regex {
            Some(re) => re.matches(req.url()),
            None => true,
        }
    }

    /// How many kinds of constraint this rule carries besides its pattern body.
    pub fn constraints(&self) -> (n: u8)
        ensures
            n == constraint_count(self@),
    {
        let mut n: u8 = 0;
        if self.domains.len() > 0 {
            n += 1;
        }
        if self.types.len() > 0 {
            n += 1;
        }
        if self.third_party != self.first_party {
            n += 1;
        }
        match self.left {
            Anchor::Free => {},
            _ => {
                n += 1;
            },
        }
        if self.right {
            n += 1;
        }
        if self.regex.is_some() {
            n += 1;
        }
        n
    }

    /// Whether this rule is more specific than `other`.
    pub fn is_more_specific_than(&self, other: &NetworkRule) -> (r: bool)
        ensures
            r == outranks(self@, other@),
    {
        let a = self.constraints();
        let b = other.constraints();
        a > b || (a == b && self.body.len() > other.body.len())
    }
}

/// A rule on page elements or injected scripts.
#[derive(Debug)]
pub struct CosmeticRule {
    /// The rule cancels what it names (`#@#`).
    pub exception: bool,
    /// The body is a script payload rather than a selector.
    pub script: bool,
    /// The domains the rule is scoped to; empty for a generic rule.
    pub domains: Vec<DomainEntry>,
    /// The selector, or the script payload.
    pub body: Vec<u8>,
}

/// What a cosmetic rule holds.
pub struct CosmeticRuleView {
    pub exception: bool,
    pub script: bool,
    pub domains: Seq<DomainEntryView>,
    pub body: Seq<u8>,
}

impl View for CosmeticRule {
    type V = CosmeticRuleView;

    open spec fn view(&self) -> CosmeticRuleView {
        CosmeticRuleView {
            exception: self.exception,
            script: self.script,
            domains: domain_views(self.domains@),
            body: self.body@,
        }
    }
}

impl CosmeticRuleView {
    /// The rule names no domain to apply on, so it applies wherever it is not excluded.
    pub open spec fn is_generic(self) -> bool {
        !has_positive_domain(self.domains)
    }

    /// The rule applies on pages of `host`.
    pub open spec fn applies_to(self, host: Seq<u8>) -> bool {
        domains_permit(self.domains, host)
    }
}

impl CosmeticRule {
    /// The kind of this rule.
    pub fn kind(&self) -> (k: RuleKind)
        ensures
            k == (if self@.exception { RuleKind::CosmeticException } else { RuleKind::CosmeticHide }),
    {
        if self.exception {
            RuleKind::CosmeticException
        } else {
            RuleKind::CosmeticHide
        }
    }

    /// Whether the rule names no domain to apply on.
    pub fn is_generic(&self) -> (r: bool)
        ensures
            r == self@.is_generic(),
    {
        let ghost dv = domain_views(self.domains@);
        let mut k: usize = 0;
        while k < self.domains.len()
            invariant
                k <= self.domains@.len(),
                dv == domain_views(self.domains@),
                forall|j: int| 0 <= j < k ==> (#[trigger] dv[j]).negated,
            decreases self.domains@.len() - k,
        {
            assert(dv[k as int] == self.domains@[k as int]@);
            if !self.domains[k].negated {
                return false;
            }
            k += 1;
        }
        true
    }

    /// Whether the rule applies on pages of `host`.
    pub fn applies_to(&self, host: &[u8]) -> (r: bool)
        ensures
            r == self@.applies_to(host@),
    {
        check_domains(&self.domains, host)
    }
}

} // verus!
