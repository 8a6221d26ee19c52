//! The cosmetic resolver: from a page's host to the selectors to hide and
//! the script to inject.
//!
//! Rules are bucketed by the last two labels of the domains they name. A
//! rule that names no domain to apply on, or one of a single label, is kept
//! in a list that every lookup walks.
//!
//! Script injection is supported in a reduced form: the payload of
//! `+js(payload)` is injected as it stands. Style injection is not
//! supported, and the exceptions that applied are not enumerated; both
//! fields of the result are always empty, which says that none apply.

use vstd::prelude::*;
use std::collections::HashMap;
use crate::rule::{has_positive_domain, CosmeticRule, CosmeticRuleView};
use crate::text::{
    bytes_eq, copy_bytes, fold_hash, hash_bytes, lemma_push_contains, piece_views,
};
use crate::url::{find_site, host_under, lemma_site_of_subdomain, site_of};

verus! {

/// The views of a list of cosmetic rules.
pub open spec fn cosmetic_views(v: Seq<CosmeticRule>) -> Seq<CosmeticRuleView> {
    Seq::new(v.len(), |i: int| v[i]@)
}

/// The views of a list of byte strings.
pub open spec fn byte_views(v: Seq<Vec<u8>>) -> Seq<Seq<u8>> {
    piece_views(v)
}

/// The views of a list of pairs of byte strings.
pub open spec fn pair_views(v: Seq<(Vec<u8>, Vec<u8>)>) -> Seq<(Seq<u8>, Seq<u8>)> {
    Seq::new(v.len(), |i: int| (v[i].0@, v[i].1@))
}

/// What applies to one page.
#[derive(Debug)]
pub struct UrlSpecificResources {
    /// The selectors to hide, each once.
    pub hide_selectors: Vec<Vec<u8>>,
    /// Pairs of selector and style; always empty.
    pub style_selectors: Vec<(Vec<u8>, Vec<u8>)>,
    /// The exceptions that applied; always empty.
    pub exceptions: Vec<Vec<u8>>,
    /// The script to inject.
    pub injected_script: Vec<u8>,
    /// Generic hiding is switched off for the page.
    pub generichide: bool,
}

/// What the resources of a page hold.
pub struct UrlSpecificResourcesView {
    pub hide_selectors: Seq<Seq<u8>>,
    pub style_selectors: Seq<(Seq<u8>, Seq<u8>)>,
    pub exceptions: Seq<Seq<u8>>,
    pub injected_script: Seq<u8>,
    pub generichide: bool,
}

impl View for UrlSpecificResources {
    type V = UrlSpecificResourcesView;

    open spec fn view(&self) -> UrlSpecificResourcesView {
        UrlSpecificResourcesView {
            hide_selectors: byte_views(self.hide_selectors@),
            style_selectors: pair_views(self.style_selectors@),
            exceptions: byte_views(self.exceptions@),
            injected_script: self.injected_script@,
            generichide: self.generichide,
        }
    }
}

/// Some exception of the same sort and with the same body applies on `host`.
pub open spec fn cancelled(
    exceptions: Seq<CosmeticRuleView>,
    rule: CosmeticRuleView,
    host: Seq<u8>,
) -> bool {
    exists|k: int|
        0 <= k < exceptions.len() && (#[trigger] exceptions[k]).script == rule.script
            && exceptions[k].body == rule.body && exceptions[k].applies_to(host)
}

/// A rule is suppressed by generic hiding being off: it hides elements and
/// names no domain to apply on.
pub open spec fn suppressed(rule: CosmeticRuleView, generichide: bool) -> bool {
    generichide && !rule.script && rule.is_generic()
}

/// A rule takes effect on a page: it applies on the host, generic hiding
/// does not suppress it, and no exception cancels it.
pub open spec fn in_force(
    rule: CosmeticRuleView,
    exceptions: Seq<CosmeticRuleView>,
    host: Seq<u8>,
    generichide: bool,
) -> bool {
    rule.applies_to(host) && !suppressed(rule, generichide) && !cancelled(exceptions, rule, host)
}

/// The selectors that the first `n` rules hide on a page, each once, in the
/// order in which they first occur.
pub open spec fn hide_selectors_of(
    rules: Seq<CosmeticRuleView>,
    exceptions: Seq<CosmeticRuleView>,
    host: Seq<u8>,
    generichide: bool,
    n: int,
) -> Seq<Seq<u8>>
    decreases n,
{
    if n <= 0 {
        Seq::empty()
    } else {
        let before = hide_selectors_of(rules, exceptions, host, generichide, n - 1);
        let rule = rules[n - 1];
        if !rule.script && in_force(rule, exceptions, host, generichide) && !before.contains(
            rule.body,
        ) {
            before.push(rule.body)
        } else {
            before
        }
    }
}

/// The script payloads of the first `n` rules that take effect on a page,
/// joined in the order of the rules.
pub open spec fn injected_script_of(
    rules: Seq<CosmeticRuleView>,
    exceptions: Seq<CosmeticRuleView>,
    host: Seq<u8>,
    generichide: bool,
    n: int,
) -> Seq<u8>
    decreases n,
{
    if n <= 0 {
        Seq::empty()
    } else {
        let before = injected_script_of(rules, exceptions, host, generichide, n - 1);
        let rule = rules[n - 1];
        if rule.script && in_force(rule, exceptions, host, generichide) {
            before + rule.body
        } else {
            before
        }
    }
}

/// The resources of a page with the given host.
pub open spec fn resources_of(
    rules: Seq<CosmeticRuleView>,
    exceptions: Seq<CosmeticRuleView>,
    host: Seq<u8>,
    generichide: bool,
) -> UrlSpecificResourcesView {
    UrlSpecificResourcesView {
        hide_selectors: hide_selectors_of(rules, exceptions, host, generichide, rules.len() as int),
        style_selectors: Seq::empty(),
        exceptions: Seq::empty(),
        injected_script: injected_script_of(
            rules,
            exceptions,
            host,
            generichide,
            rules.len() as int,
        ),
        generichide,
    }
}

/// The resources of a page to which nothing applies.
pub open spec fn no_resources() -> UrlSpecificResourcesView {
    UrlSpecificResourcesView {
        hide_selectors: Seq::empty(),
        style_selectors: Seq::empty(),
        exceptions: Seq::empty(),
        injected_script: Seq::empty(),
        generichide: false,
    }
}

/// One of the first `n` rules hides `selector` and takes effect on the page.
pub open spec fn hidden_by(
    rules: Seq<CosmeticRuleView>,
    exceptions: Seq<CosmeticRuleView>,
    host: Seq<u8>,
    generichide: bool,
    n: int,
    selector: Seq<u8>,
) -> bool {
    exists|i: int|
        0 <= i < n && i < rules.len() && !(#[trigger] rules[i]).script && rules[i].body == selector
            && in_force(rules[i], exceptions, host, generichide)
}

/// A selector is in the list exactly when a rule that takes effect hides it.
pub proof fn lemma_hide_selectors_members(
    rules: Seq<CosmeticRuleView>,
    exceptions: Seq<CosmeticRuleView>,
    host: Seq<u8>,
    generichide: bool,
    n: int,
    selector: Seq<u8>,
)
    requires
        n <= rules.len(),
    ensures
        hide_selectors_of(rules, exceptions, host, generichide, n).contains(selector) <==> hidden_by(
            rules,
            exceptions,
            host,
            generichide,
            n,
            selector,
        ),
    decreases n,
{
    if n > 0 {
        lemma_hide_selectors_members(rules, exceptions, host, generichide, n - 1, selector);
        let before = hide_selectors_of(rules, exceptions, host, generichide, n - 1);
        let rule = rules[n - 1];
        lemma_push_contains(before, rule.body, selector);
        if hidden_by(rules, exceptions, host, generichide, n, selector) {
            let i = choose|i: int|
                0 <= i < n && i < rules.len() && !(#[trigger] rules[i]).script && rules[i].body
                    == selector && in_force(rules[i], exceptions, host, generichide);
            if i < n - 1 {
                assert(hidden_by(rules, exceptions, host, generichide, n - 1, selector));
            }
        }
        if hidden_by(rules, exceptions, host, generichide, n - 1, selector) {
            let i = choose|i: int|
                0 <= i < n - 1 && i < rules.len() && !(#[trigger] rules[i]).script && rules[i].body
                    == selector && in_force(rules[i], exceptions, host, generichide);
            assert(hidden_by(rules, exceptions, host, generichide, n, selector));
        }
        if !rule.script && in_force(rule, exceptions, host, generichide) && rule.body == selector {
            assert(hidden_by(rules, exceptions, host, generichide, n, selector));
        }
    }
}

/// No selector stands twice in the list.
pub proof fn lemma_hide_selectors_distinct(
    rules: Seq<CosmeticRuleView>,
    exceptions: Seq<CosmeticRuleView>,
    host: Seq<u8>,
    generichide: bool,
    n: int,
)
    ensures
        forall|a: int, b: int|
            0 <= a < b < hide_selectors_of(rules, exceptions, host, generichide, n).len()
                ==> hide_selectors_of(rules, exceptions, host, generichide, n)[a]
                != hide_selectors_of(rules, exceptions, host, generichide, n)[b],
    decreases n,
{
    if n > 0 {
        lemma_hide_selectors_distinct(rules, exceptions, host, generichide, n - 1);
        let before = hide_selectors_of(rules, exceptions, host, generichide, n - 1);
        let list = hide_selectors_of(rules, exceptions, host, generichide, n);
        assert forall|a: int, b: int| 0 <= a < b < list.len() implies list[a] != list[b] by {
            if b == before.len() {
                assert(before.contains(before[a]));
            }
        }
    }
}

/// A hiding rule scoped to one domain puts its selector on the pages of that
/// domain and of its subdomains, unless an exception cancels it there.
pub proof fn lemma_scoped_rule_applies(
    rules: Seq<CosmeticRuleView>,
    exceptions: Seq<CosmeticRuleView>,
    host: Seq<u8>,
    generichide: bool,
    i: int,
)
    requires
        0 <= i < rules.len(),
        !rules[i].script,
        rules[i].domains.len() == 1,
        !rules[i].domains[0].negated,
        host_under(host, rules[i].domains[0].name),
        !cancelled(exceptions, rules[i], host),
    ensures
        resources_of(rules, exceptions, host, generichide).hide_selectors.contains(rules[i].body),
{
    assert(has_positive_domain(rules[i].domains));
    assert(in_force(rules[i], exceptions, host, generichide));
    assert(hidden_by(rules, exceptions, host, generichide, rules.len() as int, rules[i].body));
    lemma_hide_selectors_members(
        rules,
        exceptions,
        host,
        generichide,
        rules.len() as int,
        rules[i].body,
    );
}

/// A selector that no rule applying on the host hides is not in the list:
/// a rule scoped to other domains leaves the page alone.
pub proof fn lemma_unscoped_selector_absent(
    rules: Seq<CosmeticRuleView>,
    exceptions: Seq<CosmeticRuleView>,
    host: Seq<u8>,
    generichide: bool,
    selector: Seq<u8>,
)
    requires
        forall|i: int|
            0 <= i < rules.len() && !(#[trigger] rules[i]).script && rules[i].body == selector
                ==> !rules[i].applies_to(host),
    ensures
        !resources_of(rules, exceptions, host, generichide).hide_selectors.contains(selector),
{
    lemma_hide_selectors_members(
        rules,
        exceptions,
        host,
        generichide,
        rules.len() as int,
        selector,
    );
}

/// With generic hiding off, every selector in the list comes from a rule
/// that names a domain to apply on and applies on the host.
pub proof fn lemma_generichide_leaves_scoped(
    rules: Seq<CosmeticRuleView>,
    exceptions: Seq<CosmeticRuleView>,
    host: Seq<u8>,
    selector: Seq<u8>,
)
    requires
        resources_of(rules, exceptions, host, true).hide_selectors.contains(selector),
    ensures
        exists|i: int|
            0 <= i < rules.len() && !(#[trigger] rules[i]).script && rules[i].body == selector
                && !rules[i].is_generic() && rules[i].applies_to(host),
{
    lemma_hide_selectors_members(rules, exceptions, host, true, rules.len() as int, selector);
    let i = choose|i: int|
        0 <= i < rules.len() && i < rules.len() && !(#[trigger] rules[i]).script && rules[i].body
            == selector && in_force(rules[i], exceptions, host, true);
    assert(!rules[i].is_generic());
}

/// Whether the list holds the byte string.
pub fn list_contains(list: &Vec<Vec<u8>>, s: &[u8]) -> (r: bool)
    ensures
        r == byte_views(list@).contains(s@),
{
    let ghost lv = byte_views(list@);
    let mut k: usize = 0;
    while k < list.len()
        invariant
            k <= list@.len(),
            lv == byte_views(list@),
            forall|j: int| 0 <= j < k ==> lv[j] != s@,
        decreases list@.len() - k,
    {
        if bytes_eq(list[k].as_slice(), s) {
            assert(lv[k as int] == s@);
            return true;
        }
        k += 1;
    }
    false
}

/// Whether an exception cancels the rule on pages of `host`.
pub fn is_cancelled(exceptions: &Vec<CosmeticRule>, rule: &CosmeticRule, host: &[u8]) -> (r: bool)
    ensures
        r == cancelled(cosmetic_views(exceptions@), rule@, host@),
{
    let ghost ev = cosmetic_views(exceptions@);
    let mut k: usize = 0;
    while k < exceptions.len()
        invariant
            k <= exceptions@.len(),
            ev == cosmetic_views(exceptions@),
            forall|j: int|
                0 <= j < k ==> !((#[trigger] ev[j]).script == rule@.script && ev[j].body == rule@.body
                    && ev[j].applies_to(host@)),
        decreases exceptions@.len() - k,
    {
        let e = &exceptions[k];
        assert(ev[k as int] == e@);
        if e.script == rule.script && bytes_eq(e.body.as_slice(), rule.body.as_slice())
            && e.applies_to(host) {
            return true;
        }
        k += 1;
    }
    false
}

/// Whether the rule takes effect on pages of `host`.
pub fn is_in_force(
    rule: &CosmeticRule,
    exceptions: &Vec<CosmeticRule>,
    host: &[u8],
    generichide: bool,
) -> (r: bool)
    ensures
        r == in_force(rule@, cosmetic_views(exceptions@), host@, generichide),
{
    if !rule.applies_to(host) {
        return false;
    }
    if generichide && !rule.script && rule.is_generic() {
        return false;
    }
    !is_cancelled(exceptions, rule, host)
}

/// The key of the bucket for names that end with the two labels `site`.
pub open spec fn site_key(site: Seq<u8>) -> u64 {
    fold_hash(site, site.len() as int)
}

/// A rule that every lookup must look at: it names no domain to apply on,
/// or names one of a single label.
pub open spec fn is_wide(rule: CosmeticRuleView) -> bool {
    !has_positive_domain(rule.domains) || exists|q: int|
        0 <= q < rule.domains.len() && !(#[trigger] rule.domains[q]).negated && site_of(
            rule.domains[q].name,
        ) is None
}

/// Entry `q` of a rule names a domain to apply on whose bucket has the key.
pub open spec fn names_site(rule: CosmeticRuleView, q: int, key: u64) -> bool {
    0 <= q < rule.domains.len() && !rule.domains[q].negated && site_of(rule.domains[q].name) is Some
        && site_key(site_of(rule.domains[q].name)->0) == key
}

/// Rule number `x` is filed under `key`.
pub open spec fn bucket_has(buckets: Map<u64, Vec<usize>>, key: u64, x: usize) -> bool {
    buckets.contains_key(key) && buckets[key]@.contains(x)
}

/// A list of rule numbers that rises.
pub open spec fn ascending(list: Seq<usize>) -> bool {
    forall|p: int, q: int| 0 <= p < q < list.len() ==> list[p] < list[q]
}

/// A list of rule numbers below a bound.
pub open spec fn below(list: Seq<usize>, bound: int) -> bool {
    forall|p: int| 0 <= p < list.len() ==> #[trigger] list[p] < bound
}

/// Each of the first `n` rules is filed wherever a lookup may need it.
pub open spec fn cosmetic_filed(
    rules: Seq<CosmeticRule>,
    by_site: Map<u64, Vec<usize>>,
    wide: Seq<usize>,
    n: int,
) -> bool {
    &&& forall|i: int| 0 <= i < n && is_wide(#[trigger] rules[i]@) ==> wide.contains(i as usize)
    &&& forall|i: int, q: int, key: u64|
        0 <= i < n && #[trigger] names_site(rules[i]@, q, key) ==> bucket_has(
            by_site,
            key,
            i as usize,
        )
}

/// Every list rises and stays below the bound.
pub open spec fn cosmetic_tidy(
    by_site: Map<u64, Vec<usize>>,
    wide: Seq<usize>,
    bound: int,
) -> bool {
    &&& ascending(wide)
    &&& below(wide, bound)
    &&& forall|k: u64| #[trigger]
        by_site.contains_key(k) ==> ascending(by_site[k]@) && below(by_site[k]@, bound)
}

/// A rule that is filed neither in the wide list nor in the bucket of the
/// host's last two labels does not apply on the host.
pub proof fn lemma_unfiled_rule_is_idle(
    rules: Seq<CosmeticRule>,
    by_site: Map<u64, Vec<usize>>,
    wide: Seq<usize>,
    host: Seq<u8>,
    i: int,
)
    requires
        cosmetic_filed(rules, by_site, wide, rules.len() as int),
        0 <= i < rules.len(),
        !wide.contains(i as usize),
        site_of(host) is Some ==> !bucket_has(by_site, site_key(site_of(host)->0), i as usize),
    ensures
        !rules[i]@.applies_to(host),
{
    let rule = rules[i]@;
    if rule.applies_to(host) {
        assert(!is_wide(rule));
        let k = choose|k: int|
            0 <= k < rule.domains.len() && !(#[trigger] rule.domains[k]).negated && host_under(
                host,
                rule.domains[k].name,
            );
        assert(site_of(rule.domains[k].name) is Some);
        lemma_site_of_subdomain(host, rule.domains[k].name);
        assert(names_site(rule, k, site_key(site_of(host)->0)));
    }
}

/// Rules that do not apply on the host add nothing to the resources.
pub proof fn lemma_idle_rules_add_nothing(
    rules: Seq<CosmeticRuleView>,
    exceptions: Seq<CosmeticRuleView>,
    host: Seq<u8>,
    generichide: bool,
    m: int,
    n: int,
)
    requires
        0 <= m <= n <= rules.len(),
        forall|i: int| m <= i < n ==> !(#[trigger] rules[i]).applies_to(host),
    ensures
        hide_selectors_of(rules, exceptions, host, generichide, n) == hide_selectors_of(
            rules,
            exceptions,
            host,
            generichide,
            m,
        ),
        injected_script_of(rules, exceptions, host, generichide, n) == injected_script_of(
            rules,
            exceptions,
            host,
            generichide,
            m,
        ),
    decreases n - m,
{
    if m < n {
        lemma_idle_rules_add_nothing(rules, exceptions, host, generichide, m, n - 1);
        assert(!rules[n - 1].applies_to(host));
    }
}

/// Takes rule number `k` into account: the selectors and the script of the
/// first `k` rules become those of the first `k + 1`.
fn take_rule(
    rules: &Vec<CosmeticRule>,
    exceptions: &Vec<CosmeticRule>,
    host: &[u8],
    generichide: bool,
    k: usize,
    hides: &mut Vec<Vec<u8>>,
    script: &mut Vec<u8>,
)
    requires
        k < rules@.len(),
        byte_views(old(hides)@) == hide_selectors_of(
            cosmetic_views(rules@),
            cosmetic_views(exceptions@),
            host@,
            generichide,
            k as int,
        ),
        old(script)@ == injected_script_of(
            cosmetic_views(rules@),
            cosmetic_views(exceptions@),
            host@,
            generichide,
            k as int,
        ),
    ensures
        byte_views(final(hides)@) == hide_selectors_of(
            cosmetic_views(rules@),
            cosmetic_views(exceptions@),
            host@,
            generichide,
            k + 1,
        ),
        final(script)@ == injected_script_of(
            cosmetic_views(rules@),
            cosmetic_views(exceptions@),
            host@,
            generichide,
            k + 1,
        ),
{
    let rule = &rules[k];
    assert(cosmetic_views(rules@)[k as int] == rule@);
    if is_in_force(rule, exceptions, host, generichide) {
        if rule.script {
            let mut t: usize = 0;
            let ghost start = script@;
            while t < rule.body.len()
                invariant
                    t <= rule.body@.len(),
                    script@ == start + rule.body@.subrange(0, t as int),
                decreases rule.body@.len() - t,
            {
                script.push(rule.body[t]);
                assert(rule.body@.subrange(0, t + 1) =~= rule.body@.subrange(0, t as int).push(
                    rule.body@[t as int],
                ));
                t += 1;
            }
            assert(rule.body@.subrange(0, t as int) =~= rule.body@);
        } else if !list_contains(hides, rule.body.as_slice()) {
            let ghost before = hides@;
            hides.push(copy_bytes(rule.body.as_slice()));
            assert(byte_views(hides@) =~= byte_views(before).push(rule.body@));
        }
    }
}

/// Files rule number `i` under `key`, once.
fn file_under(by_site: &mut HashMap<u64, Vec<usize>>, key: u64, i: usize)
    requires
        i < usize::MAX,
        forall|k: u64| #[trigger]
            old(by_site)@.contains_key(k) ==> ascending(old(by_site)@[k]@) && below(
                old(by_site)@[k]@,
                i + 1,
            ),
    ensures
        forall|k: u64| #[trigger]
            final(by_site)@.contains_key(k) ==> ascending(final(by_site)@[k]@) && below(
                final(by_site)@[k]@,
                i + 1,
            ),
        bucket_has(final(by_site)@, key, i),
        forall|k: u64, x: usize| #[trigger]
            bucket_has(old(by_site)@, k, x) ==> bucket_has(final(by_site)@, k, x),
{
    let ghost before = by_site@;
    let mut bucket = match by_site.remove(&key) {
        Some(b) => b,
        None => Vec::new(),
    };
    let ghost held = bucket@;
    let n = bucket.len();
    if n == 0 || bucket[n - 1] != i {
        bucket.push(i);
    }
    proof {
        assert forall|x: usize| held.contains(x) implies bucket@.contains(x) by {
            lemma_push_contains(held, i, x);
        }
        lemma_push_contains(held, i, i);
        if n > 0 && held[n - 1] == i {
            assert(held.contains(i));
        }
    }
    by_site.insert(key, bucket);
    proof {
        assert forall|k: u64, x: usize| #[trigger] bucket_has(before, k, x) implies bucket_has(
            by_site@,
            k,
            x,
        ) by {
            if k != key {
                assert(by_site@.contains_key(k));
                assert(by_site@[k] == before[k]);
            }
        }
    }
}

/// Cosmetic rules and their exceptions, with the rules bucketed by site.
pub struct CosmeticIndex {
    rules: Vec<CosmeticRule>,
    exceptions: Vec<CosmeticRule>,
    wide: Vec<usize>,
    by_site: HashMap<u64, Vec<usize>>,
}

impl View for CosmeticIndex {
    type V = (Seq<CosmeticRuleView>, Seq<CosmeticRuleView>);

    /// The rules that hide or inject, and the rules that cancel, each list
    /// in the order in which it was given.
    closed spec fn view(&self) -> (Seq<CosmeticRuleView>, Seq<CosmeticRuleView>) {
        (cosmetic_views(self.rules@), cosmetic_views(self.exceptions@))
    }
}

impl CosmeticIndex {
    /// Every rule is filed wherever a lookup may need it, and the lists rise.
    #[verifier::type_invariant]
    spec fn wf(&self) -> bool {
        &&& self.rules@.len() <= usize::MAX
        &&& cosmetic_filed(self.rules@, self.by_site@, self.wide@, self.rules@.len() as int)
        &&& cosmetic_tidy(self.by_site@, self.wide@, self.rules@.len() as int)
    }

    /// Builds the index over rules and exceptions, which keep their order.
    pub fn build(rules: Vec<CosmeticRule>, exceptions: Vec<CosmeticRule>) -> (idx: CosmeticIndex)
        ensures
            idx@ == (cosmetic_views(rules@), cosmetic_views(exceptions@)),
    {
        let mut wide: Vec<usize> = Vec::new();
        let mut by_site: HashMap<u64, Vec<usize>> = HashMap::new();
        let total = rules.len();
        let mut i: usize = 0;
        while i < total
            invariant
                i <= total == rules@.len(),
                cosmetic_filed(rules@, by_site@, wide@, i as int),
                cosmetic_tidy(by_site@, wide@, i as int),
            decreases total - i,
        {
            let rule = &rules[i];
            let ghost rv = rule@;
            let mut positive = false;
            let mut in_wide = false;
            let mut e: usize = 0;
            while e < rule.domains.len()
                invariant
                    i < total == rules@.len(),
                    *rule == rules@[i as int],
                    rv == rule@,
                    e <= rule.domains@.len(),
                    cosmetic_filed(rules@, by_site@, wide@, i as int),
                    cosmetic_tidy(by_site@, wide@, i + 1),
                    positive == (exists|q: int| 0 <= q < e && !(#[trigger] rv.domains[q]).negated),
                    in_wide == wide@.contains(i),
                    !in_wide ==> below(wide@, i as int),
                    forall|q: int|
                        0 <= q < e && !(#[trigger] rv.domains[q]).negated && site_of(
                            rv.domains[q].name,
                        ) is None ==> in_wide,
                    forall|q: int, key: u64|
                        0 <= q < e && #[trigger] names_site(rv, q, key) ==> bucket_has(
                            by_site@,
                            key,
                            i,
                        ),
                decreases rule.domains@.len() - e,
            {
                let entry = &rule.domains[e];
                assert(rv.domains[e as int] == entry@);
                let ghost old_wide = wide@;
                if !entry.negated {
                    positive = true;
                    let name = entry.name.as_slice();
                    match find_site(name) {
                        None => {
                            if !in_wide {
                                wide.push(i);
                                in_wide = true;
                                proof {
                                    lemma_push_contains(old_wide, i, i);
                                    assert forall|x: usize| old_wide.contains(x) implies wide@.contains(
                                        x,
                                    ) by {
                                        lemma_push_contains(old_wide, i, x);
                                    }
                                }
                            }
                        },
                        Some(start) => {
                            let key = hash_bytes(&name[start..name.len()]);
                            file_under(&mut by_site, key, i);
                            assert(names_site(rv, e as int, key));
                        },
                    }
                }
                e += 1;
            }
            if !positive {
                let ghost old_wide = wide@;
                if !in_wide {
                    wide.push(i);
                    proof {
                        lemma_push_contains(old_wide, i, i);
                        assert forall|x: usize| old_wide.contains(x) implies wide@.contains(x) by {
                            lemma_push_contains(old_wide, i, x);
                        }
                    }
                }
            }
            proof {
                assert(rv.domains.len() == rule.domains@.len());
                assert(is_wide(rv) ==> wide@.contains(i));
                assert forall|j: int| 0 <= j < i + 1 && is_wide(#[trigger] rules@[j]@) implies wide@.contains(
                    j as usize,
                ) by {}
                assert forall|j: int, q: int, key: u64|
                    0 <= j < i + 1 && #[trigger] names_site(rules@[j]@, q, key) implies bucket_has(
                    by_site@,
                    key,
                    j as usize,
                ) by {}
            }
            i += 1;
        }
        CosmeticIndex { rules, exceptions, wide, by_site }
    }

    /// Resolves the cosmetic resources of a page with the given host.
    ///
    /// Only the rules of the wide list and of the host's bucket are looked
    /// at, in the order of the rules.
    pub fn resolve(&self, host: &[u8], generichide: bool) -> (res: UrlSpecificResources)
        ensures
            res@ == resources_of(self@.0, self@.1, host@, generichide),
            forall|a: int, b: int|
                0 <= a < b < res@.hide_selectors.len() ==> res@.hide_selectors[a]
                    != res@.hide_selectors[b],
    {
        proof {
            use_type_invariant(self);
            lemma_hide_selectors_distinct(
                cosmetic_views(self.rules@),
                cosmetic_views(self.exceptions@),
                host@,
                generichide,
                self.rules@.len() as int,
            );
        }
        let none: Vec<usize> = Vec::new();
        let bucket: &Vec<usize> = match find_site(host) {
            Some(start) => {
                let key = hash_bytes(&host[start..host.len()]);
                match self.by_site.get(&key) {
                    Some(b) => b,
                    None => &none,
                }
            },
            None => &none,
        };
        let ghost rv = cosmetic_views(self.rules@);
        let ghost ev = cosmetic_views(self.exceptions@);
        let n = self.rules.len();
        proof {
            assert(ascending(bucket@) && below(bucket@, n as int));
            assert forall|i: int|
                0 <= i < n && !self.wide@.contains(i as usize) && !bucket@.contains(
                    i as usize,
                ) implies !(#[trigger] rv[i]).applies_to(host@) by {
                lemma_unfiled_rule_is_idle(self.rules@, self.by_site@, self.wide@, host@, i);
            }
        }
        let mut hides: Vec<Vec<u8>> = Vec::new();
        let mut script: Vec<u8> = Vec::new();
        let mut a: usize = 0;
        let mut b: usize = 0;
        let mut m: usize = 0;
        assert(byte_views(hides@) =~= Seq::<Seq<u8>>::empty());
        while a < self.wide.len() || b < bucket.len()
            invariant
                n == self.rules@.len(),
                rv == cosmetic_views(self.rules@),
                ev == cosmetic_views(self.exceptions@),
                a <= self.wide@.len(),
                b <= bucket@.len(),
                m <= n,
                ascending(self.wide@),
                below(self.wide@, n as int),
                ascending(bucket@),
                below(bucket@, n as int),
                forall|p: int| 0 <= p < a ==> #[trigger] self.wide@[p] < m,
                forall|p: int| a <= p < self.wide@.len() ==> #[trigger] self.wide@[p] >= m,
                forall|p: int| 0 <= p < b ==> #[trigger] bucket@[p] < m,
                forall|p: int| b <= p < bucket@.len() ==> #[trigger] bucket@[p] >= m,
                forall|i: int|
                    0 <= i < n && !self.wide@.contains(i as usize) && !bucket@.contains(i as usize)
                        ==> !(#[trigger] rv[i]).applies_to(host@),
                byte_views(hides@) == hide_selectors_of(rv, ev, host@, generichide, m as int),
                script@ == injected_script_of(rv, ev, host@, generichide, m as int),
            decreases (self.wide@.len() - a) + (bucket@.len() - b),
        {
            let next = if a < self.wide.len() && (b >= bucket.len() || self.wide[a] <= bucket[b]) {
                self.wide[a]
            } else {
                bucket[b]
            };
            proof {
                assert forall|i: int| m <= i < next implies !(#[trigger] rv[i]).applies_to(host@) by {
                    assert forall|p: int| 0 <= p < self.wide@.len() implies self.wide@[p]
                        != i as usize by {
                        if p >= a && a < self.wide@.len() {
                            assert(self.wide@[a as int] >= next);
                            assert(p > a ==> self.wide@[a as int] < self.wide@[p]);
                        }
                    }
                    assert forall|p: int| 0 <= p < bucket@.len() implies bucket@[p] != i as usize by {
                        if p >= b && b < bucket@.len() {
                            assert(bucket@[b as int] >= next);
                            assert(p > b ==> bucket@[b as int] < bucket@[p]);
                        }
                    }
                }
                lemma_idle_rules_add_nothing(rv, ev, host@, generichide, m as int, next as int);
            }
            take_rule(
                &self.rules,
                &self.exceptions,
                host,
                generichide,
                next,
                &mut hides,
                &mut script,
            );
            m = next + 1;
            if a < self.wide.len() && self.wide[a] == next {
                proof {
                    assert forall|p: int| a + 1 <= p < self.wide@.len() implies #[trigger] self.wide@[p]
                        >= m by {
                        assert(self.wide@[a as int] < self.wide@[p]);
                    }
                }
                a += 1;
            } else {
                proof {
                    assert forall|p: int| a <= p < self.wide@.len() implies #[trigger] self.wide@[p]
                        >= m by {
                        assert(self.wide@[a as int] > next);
                        assert(p > a ==> self.wide@[a as int] < self.wide@[p]);
                    }
                }
            }
            if b < bucket.len() && bucket[b] == next {
                proof {
                    assert forall|p: int| b + 1 <= p < bucket@.len() implies #[trigger] bucket@[p]
                        >= m by {
                        assert(bucket@[b as int] < bucket@[p]);
                    }
                }
                b += 1;
            } else {
                proof {
                    assert forall|p: int| b <= p < bucket@.len() implies #[trigger] bucket@[p]
                        >= m by {
                        assert(bucket@[b as int] > next);
                        assert(p > b ==> bucket@[b as int] < bucket@[p]);
                    }
                }
            }
        }
        proof {
            assert forall|i: int| m <= i < n implies !(#[trigger] rv[i]).applies_to(host@) by {
                assert forall|p: int| 0 <= p < self.wide@.len() implies self.wide@[p]
                    != i as usize by {}
                assert forall|p: int| 0 <= p < bucket@.len() implies bucket@[p] != i as usize by {}
            }
            lemma_idle_rules_add_nothing(rv, ev, host@, generichide, m as int, n as int);
        }
        let res = UrlSpecificResources {
            hide_selectors: hides,
            style_selectors: Vec::new(),
            exceptions: Vec::new(),
            injected_script: script,
            generichide,
        };
        assert(res@.style_selectors =~= Seq::<(Seq<u8>, Seq<u8>)>::empty());
        assert(res@.exceptions =~= Seq::<Seq<u8>>::empty());
        res
    }
}

} // verus!
