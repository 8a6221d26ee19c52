//! The network matcher: from a request to a disposition.

use vstd::prelude::*;
use crate::index::{holds_runs, FilterIndex};
use crate::pattern::{lemma_pattern_holds_run, literal_run, occurs};
use crate::request::{Request, RequestView};
use crate::rule::{outranks, rule_matches, NetworkRuleView};

verus! {

/// What the network matcher found for one request.
#[derive(Clone, Copy, Debug, PartialEq, Eq, Structural)]
pub struct MatchResult {
    /// Some blocking rule matched the request.
    pub matched: bool,
    /// The number of the exception rule that lets the request pass, if one does.
    pub exception: Option<usize>,
}

/// A request is blocked when a blocking rule matched and no exception stands.
pub open spec fn blocked(res: MatchResult) -> bool {
    res.matched && res.exception is None
}

/// Some rule of the list matches the request.
pub open spec fn any_match(rules: Seq<NetworkRuleView>, req: RequestView) -> bool {
    exists|i: int| 0 <= i < rules.len() && rule_matches(#[trigger] rules[i], req)
}

/// Some rule of the list that is marked `important` matches the request.
pub open spec fn important_match(rules: Seq<NetworkRuleView>, req: RequestView) -> bool {
    exists|i: int|
        0 <= i < rules.len() && (#[trigger] rules[i]).important && rule_matches(rules[i], req)
}

/// Rule `i` stands before rule `j` among the matching rules: it is more
/// specific, or as specific and earlier in the list.
pub open spec fn precedes(rules: Seq<NetworkRuleView>, i: int, j: int) -> bool {
    outranks(rules[i], rules[j]) || (!outranks(rules[j], rules[i]) && i <= j)
}

/// Exception `i` matches the request and stands before every other
/// exception that matches it.
pub open spec fn is_best_exception(
    exceptions: Seq<NetworkRuleView>,
    req: RequestView,
    i: int,
) -> bool {
    &&& 0 <= i < exceptions.len()
    &&& rule_matches(exceptions[i], req)
    &&& forall|j: int|
        0 <= j < exceptions.len() && rule_matches(#[trigger] exceptions[j], req) ==> precedes(
            exceptions,
            i,
            j,
        )
}

/// `res` is the verdict on `req` under the given blocking and exception rules.
///
/// A request is matched when some blocking rule matches it. When a matching
/// blocking rule is marked `important`, no exception is reported. Otherwise
/// the exception reported is the most specific one that matches, the first
/// of those that are equally specific.
pub open spec fn decides(
    blocks: Seq<NetworkRuleView>,
    exceptions: Seq<NetworkRuleView>,
    req: RequestView,
    res: MatchResult,
) -> bool {
    &&& res.matched == any_match(blocks, req)
    &&& match res.exception {
        Some(i) => !important_match(blocks, req) && is_best_exception(exceptions, req, i as int),
        None => important_match(blocks, req) || !any_match(exceptions, req),
    }
}

/// A request is to be blocked: a blocking rule matches it, and either no
/// exception matches it or a matching blocking rule is marked `important`.
pub open spec fn should_block(
    blocks: Seq<NetworkRuleView>,
    exceptions: Seq<NetworkRuleView>,
    req: RequestView,
) -> bool {
    any_match(blocks, req) && (!any_match(exceptions, req) || important_match(blocks, req))
}

/// The verdict blocks exactly the requests that are to be blocked.
pub proof fn lemma_verdict_blocks(
    blocks: Seq<NetworkRuleView>,
    exceptions: Seq<NetworkRuleView>,
    req: RequestView,
    res: MatchResult,
)
    requires
        decides(blocks, exceptions, req, res),
    ensures
        blocked(res) == should_block(blocks, exceptions, req),
{
    if important_match(blocks, req) {
        let i = choose|i: int|
            0 <= i < blocks.len() && (#[trigger] blocks[i]).important && rule_matches(blocks[i], req);
        assert(rule_matches(blocks[i], req));
    }
    if let Some(i) = res.exception {
        assert(rule_matches(exceptions[i as int], req));
    }
}

/// A URL that a rule matches holds every literal run of the rule's pattern.
pub proof fn lemma_match_holds_runs(rule: NetworkRuleView, req: RequestView)
    requires
        rule_matches(rule, req),
    ensures
        holds_runs(req.url, rule.body),
{
    assert forall|a: int, b: int| #[trigger] literal_run(rule.body, a, b) implies occurs(
        req.url,
        rule.body.subrange(a, b),
    ) by {
        lemma_pattern_holds_run(
            rule.body,
            rule.left,
            rule.right,
            req.url,
            req.host_start,
            req.host_end,
            a,
            b,
        );
    }
}

/// There is one verdict only.
pub proof fn lemma_verdict_unique(
    blocks: Seq<NetworkRuleView>,
    exceptions: Seq<NetworkRuleView>,
    req: RequestView,
    a: MatchResult,
    b: MatchResult,
)
    requires
        decides(blocks, exceptions, req, a),
        decides(blocks, exceptions, req, b),
    ensures
        a == b,
{
    match (a.exception, b.exception) {
        (Some(i), Some(j)) => {
            assert(precedes(exceptions, i as int, j as int));
            assert(precedes(exceptions, j as int, i as int));
        },
        (Some(i), None) => {
            assert(rule_matches(exceptions[i as int], req));
        },
        (None, Some(j)) => {
            assert(rule_matches(exceptions[j as int], req));
        },
        (None, None) => {},
    }
}

/// A matching blocking rule marked `important` blocks the request, whatever
/// the exceptions are.
pub proof fn lemma_important_blocks(
    blocks: Seq<NetworkRuleView>,
    exceptions: Seq<NetworkRuleView>,
    req: RequestView,
    res: MatchResult,
    i: int,
)
    requires
        0 <= i < blocks.len(),
        blocks[i].important,
        rule_matches(blocks[i], req),
        decides(blocks, exceptions, req, res),
    ensures
        blocked(res),
{
}

/// A request that no blocking rule matches is allowed.
pub proof fn lemma_default_allow(
    blocks: Seq<NetworkRuleView>,
    exceptions: Seq<NetworkRuleView>,
    req: RequestView,
    res: MatchResult,
)
    requires
        !any_match(blocks, req),
        decides(blocks, exceptions, req, res),
    ensures
        !blocked(res),
{
}

/// A matching exception lets a request pass unless a matching blocking rule
/// is marked `important`.
pub proof fn lemma_exception_allows(
    blocks: Seq<NetworkRuleView>,
    exceptions: Seq<NetworkRuleView>,
    req: RequestView,
    res: MatchResult,
    j: int,
)
    requires
        0 <= j < exceptions.len(),
        rule_matches(exceptions[j], req),
        !important_match(blocks, req),
        decides(blocks, exceptions, req, res),
    ensures
        !blocked(res),
{
}

impl MatchResult {
    /// Whether the request is to be blocked.
    pub fn is_blocked(&self) -> (r: bool)
        ensures
            r == blocked(*self),
    {
        self.matched && self.exception.is_none()
    }
}

/// Whether any rule of `index` matches, and whether any such rule is important.
pub fn find_block(index: &FilterIndex, req: &Request) -> (r: (bool, bool))
    ensures
        r.0 == any_match(index@, req@),
        r.1 == important_match(index@, req@),
{
    let cands = index.candidates_for(req.url());
    let mut matched = false;
    let mut important = false;
    let mut k: usize = 0;
    while k < cands.len()
        invariant
            k <= cands@.len(),
            forall|j: int| 0 <= j < cands@.len() ==> #[trigger] cands@[j] < index@.len(),
            matched == (exists|q: int|
                0 <= q < k && rule_matches(index@[#[trigger] cands@[q] as int], req@)),
            important == (exists|q: int|
                0 <= q < k && index@[#[trigger] cands@[q] as int].important && rule_matches(
                    index@[cands@[q] as int],
                    req@,
                )),
        decreases cands@.len() - k,
    {
        let rule = index.rule(cands[k]);
        if rule.matches(req) {
            matched = true;
            if rule.important {
                important = true;
            }
        }
        k += 1;
    }
    proof {
        if any_match(index@, req@) {
            let i = choose|i: int| 0 <= i < index@.len() && rule_matches(#[trigger] index@[i], req@);
            lemma_match_holds_runs(index@[i], req@);
            let q = choose|q: int| 0 <= q < cands@.len() && cands@[q] == i as usize;
            assert(rule_matches(index@[cands@[q] as int], req@));
        }
        if important_match(index@, req@) {
            let i = choose|i: int|
                0 <= i < index@.len() && (#[trigger] index@[i]).important && rule_matches(index@[i], req@);
            lemma_match_holds_runs(index@[i], req@);
            let q = choose|q: int| 0 <= q < cands@.len() && cands@[q] == i as usize;
            assert(index@[cands@[q] as int].important);
        }
    }
    (matched, important)
}

/// The exception of `index` that stands before all others that match.
pub fn find_exception(index: &FilterIndex, req: &Request) -> (r: Option<usize>)
    ensures
        match r {
            Some(i) => is_best_exception(index@, req@, i as int),
            None => !any_match(index@, req@),
        },
{
    let cands = index.candidates_for(req.url());
    let mut best: Option<usize> = None;
    let mut k: usize = 0;
    while k < cands.len()
        invariant
            k <= cands@.len(),
            forall|j: int| 0 <= j < cands@.len() ==> #[trigger] cands@[j] < index@.len(),
            match best {
                Some(i) => i < index@.len() && rule_matches(index@[i as int], req@) && forall|q: int|
                    0 <= q < k && rule_matches(index@[#[trigger] cands@[q] as int], req@)
                        ==> precedes(index@, i as int, cands@[q] as int),
                None => forall|q: int|
                    0 <= q < k ==> !rule_matches(index@[#[trigger] cands@[q] as int], req@),
            },
        decreases cands@.len() - k,
    {
        let n = cands[k];
        let rule = index.rule(n);
        if rule.matches(req) {
            match best {
                None => {
                    best = Some(n);
                },
                Some(i) => {
                    let held = index.rule(i);
                    if rule.is_more_specific_than(held) || (!held.is_more_specific_than(rule) && n
                        < i) {
                        best = Some(n);
                    }
                },
            }
        }
        k += 1;
    }
    proof {
        match best {
            Some(i) => {
                assert forall|j: int|
                    0 <= j < index@.len() && rule_matches(#[trigger] index@[j], req@) implies precedes(
                    index@,
                    i as int,
                    j,
                ) by {
                    lemma_match_holds_runs(index@[j], req@);
                    let q = choose|q: int| 0 <= q < cands@.len() && cands@[q] == j as usize;
                    assert(rule_matches(index@[cands@[q] as int], req@));
                }
            },
            None => {
                if any_match(index@, req@) {
                    let j = choose|j: int|
                        0 <= j < index@.len() && rule_matches(#[trigger] index@[j], req@);
                    lemma_match_holds_runs(index@[j], req@);
                    let q = choose|q: int| 0 <= q < cands@.len() && cands@[q] == j as usize;
                    assert(rule_matches(index@[cands@[q] as int], req@));
                }
            },
        }
    }
    best
}

/// Decides one request against blocking rules and exception rules.
pub fn check(blocks: &FilterIndex, exceptions: &FilterIndex, req: &Request) -> (res: MatchResult)
    ensures
        decides(blocks@, exceptions@, req@, res),
        blocked(res) == should_block(blocks@, exceptions@, req@),
{
    let found = find_block(blocks, req);
    let res = if found.1 {
        MatchResult { matched: found.0, exception: None }
    } else {
        MatchResult { matched: found.0, exception: find_exception(exceptions, req) }
    };
    proof {
        lemma_verdict_blocks(blocks@, exceptions@, req@, res);
    }
    res
}

} // verus!
