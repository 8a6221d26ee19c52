//! The lookup structure for network rules.
//!
//! Each rule is filed under a key made of the first bytes of its longest
//! literal run; a rule whose longest run is shorter than a key goes to the
//! catch-all list. A URL that a rule matches holds every literal run of the
//! rule, so the rule is found under the key of one of the URL's windows.

use vstd::prelude::*;
use std::collections::HashMap;
use crate::pattern::{
    has_window, key_at, key_of_body, lemma_token_span, lemma_token_window, literal_run, occurs,
    token_key, token_span, window_key, KEY_WIDTH,
};
use crate::rule::{NetworkRule, NetworkRuleView};
use crate::text::{lemma_join_contains, lemma_push_contains};

verus! {

/// The views of a list of network rules.
pub open spec fn rule_views(v: Seq<NetworkRule>) -> Seq<NetworkRuleView> {
    Seq::new(v.len(), |i: int| v[i]@)
}

/// `url` holds every literal run of `body`.
pub open spec fn holds_runs(url: Seq<u8>, body: Seq<u8>) -> bool {
    forall|a: int, b: int| #[trigger] literal_run(body, a, b) ==> occurs(url, body.subrange(a, b))
}

/// The key under which a rule with pattern `body` is filed; `None` stands
/// for the catch-all list.
pub open spec fn filed_under(keyed: bool, body: Seq<u8>) -> Option<u64> {
    if keyed {
        token_key(body)
    } else {
        None
    }
}

/// A lookup for `url` comes upon a rule with pattern `body`: the rule is in
/// the catch-all list, or its key is that of a window of the URL.
pub open spec fn comes_upon(keyed: bool, body: Seq<u8>, url: Seq<u8>) -> bool {
    match filed_under(keyed, body) {
        None => true,
        Some(key) => has_window(url, key),
    }
}

/// The numbers of those of the first `n` rules that are filed under `key`,
/// in the order of the rules.
pub open spec fn filed_numbers(
    rules: Seq<NetworkRuleView>,
    keyed: bool,
    key: Option<u64>,
    n: int,
) -> Seq<usize>
    decreases n,
{
    if n <= 0 {
        Seq::empty()
    } else {
        let before = filed_numbers(rules, keyed, key, n - 1);
        if filed_under(keyed, rules[n - 1].body) == key {
            before.push((n - 1) as usize)
        } else {
            before
        }
    }
}

/// How many windows of the width of a key a URL has.
pub open spec fn window_count(url: Seq<u8>) -> int {
    if url.len() >= KEY_WIDTH {
        url.len() - KEY_WIDTH + 1
    } else {
        0
    }
}

/// The rule numbers that the first `o` windows of a URL bring up: for each
/// window in turn, the rules filed under its key.
pub open spec fn gathered(rules: Seq<NetworkRuleView>, keyed: bool, url: Seq<u8>, o: int) -> Seq<
    usize,
>
    decreases o,
{
    if o <= 0 {
        Seq::empty()
    } else {
        gathered(rules, keyed, url, o - 1) + filed_numbers(
            rules,
            keyed,
            Some(window_key(url, o - 1)),
            rules.len() as int,
        )
    }
}

/// The rule numbers that a lookup for `url` gives: the catch-all list, then
/// what the windows of the URL bring up.
pub open spec fn candidates_of(rules: Seq<NetworkRuleView>, keyed: bool, url: Seq<u8>) -> Seq<
    usize,
> {
    filed_numbers(rules, keyed, None, rules.len() as int) + gathered(
        rules,
        keyed,
        url,
        window_count(url),
    )
}

/// The list under a key, empty when the key is not there.
pub open spec fn bucket_of(buckets: Map<u64, Vec<usize>>, key: u64) -> Seq<usize> {
    if buckets.contains_key(key) {
        buckets[key]@
    } else {
        Seq::empty()
    }
}

/// The first `n` rules are filed, each in its list, in the order of the rules.
pub open spec fn filed_upto(
    rules: Seq<NetworkRuleView>,
    keyed: bool,
    buckets: Map<u64, Vec<usize>>,
    catch_all: Seq<usize>,
    n: int,
) -> bool {
    &&& catch_all == filed_numbers(rules, keyed, None, n)
    &&& forall|k: u64| #[trigger] bucket_of(buckets, k) == filed_numbers(rules, keyed, Some(k), n)
}

/// A number is in the list of a key exactly when it is that of a rule filed
/// under the key.
pub proof fn lemma_filed_numbers(
    rules: Seq<NetworkRuleView>,
    keyed: bool,
    key: Option<u64>,
    n: int,
    x: usize,
)
    requires
        0 <= n <= rules.len() <= usize::MAX,
    ensures
        filed_numbers(rules, keyed, key, n).contains(x) <==> x < n && filed_under(
            keyed,
            rules[x as int].body,
        ) == key,
    decreases n,
{
    if n > 0 {
        lemma_filed_numbers(rules, keyed, key, n - 1, x);
        lemma_push_contains(filed_numbers(rules, keyed, key, n - 1), (n - 1) as usize, x);
    }
}

/// A number is brought up by the first `o` windows exactly when it is that
/// of a rule filed under the key of one of them.
pub proof fn lemma_gathered(
    rules: Seq<NetworkRuleView>,
    keyed: bool,
    url: Seq<u8>,
    o: int,
    x: usize,
)
    requires
        0 <= o,
        rules.len() <= usize::MAX,
    ensures
        gathered(rules, keyed, url, o).contains(x) <==> x < rules.len() && exists|w: int|
            0 <= w < o && filed_under(keyed, rules[x as int].body) == Some(
                #[trigger] window_key(url, w),
            ),
    decreases o,
{
    if o > 0 {
        lemma_gathered(rules, keyed, url, o - 1, x);
        let last = filed_numbers(rules, keyed, Some(window_key(url, o - 1)), rules.len() as int);
        lemma_filed_numbers(rules, keyed, Some(window_key(url, o - 1)), rules.len() as int, x);
        lemma_join_contains(gathered(rules, keyed, url, o - 1), last, x);
        if gathered(rules, keyed, url, o - 1).contains(x) {
            let w = choose|w: int|
                0 <= w < o - 1 && filed_under(keyed, rules[x as int].body) == Some(
                    #[trigger] window_key(url, w),
                );
            assert(0 <= w < o);
        }
        if x < rules.len() && exists|w: int|
            0 <= w < o && filed_under(keyed, rules[x as int].body) == Some(
                #[trigger] window_key(url, w),
            ) {
            let w = choose|w: int|
                0 <= w < o && filed_under(keyed, rules[x as int].body) == Some(
                    #[trigger] window_key(url, w),
                );
            if w < o - 1 {
                assert(gathered(rules, keyed, url, o - 1).contains(x));
            } else {
                assert(last.contains(x));
            }
        }
    }
}

/// A lookup gives the number of a rule exactly when it comes upon the rule.
pub proof fn lemma_candidates_members(
    rules: Seq<NetworkRuleView>,
    keyed: bool,
    url: Seq<u8>,
    x: usize,
)
    requires
        rules.len() <= usize::MAX,
    ensures
        candidates_of(rules, keyed, url).contains(x) <==> x < rules.len() && comes_upon(
            keyed,
            rules[x as int].body,
            url,
        ),
{
    let n = rules.len() as int;
    let o = window_count(url);
    lemma_filed_numbers(rules, keyed, None, n, x);
    lemma_gathered(rules, keyed, url, o, x);
    lemma_join_contains(filed_numbers(rules, keyed, None, n), gathered(rules, keyed, url, o), x);
    if x < n {
        let body = rules[x as int].body;
        if gathered(rules, keyed, url, o).contains(x) {
            let w = choose|w: int|
                0 <= w < o && filed_under(keyed, body) == Some(#[trigger] window_key(url, w));
            assert(has_window(url, window_key(url, w)));
        }
        if let Some(key) = filed_under(keyed, body) {
            if has_window(url, key) {
                let at = choose|at: int|
                    0 <= at && at + KEY_WIDTH <= url.len() && #[trigger] window_key(url, at) == key;
                assert(0 <= at < o);
            }
        }
    }
}

/// A lookup comes upon every rule whose literal runs the URL holds.
pub proof fn lemma_runs_come_upon(keyed: bool, body: Seq<u8>, url: Seq<u8>)
    requires
        holds_runs(url, body),
    ensures
        comes_upon(keyed, body, url),
{
    if filed_under(keyed, body) is Some {
        lemma_token_span(body);
        let a = token_span(body).0;
        assert(literal_run(body, a, a + KEY_WIDTH));
        lemma_token_window(body, url);
    }
}

/// Network rules, bucketed by a literal key.
pub struct FilterIndex {
    rules: Vec<NetworkRule>,
    keyed: bool,
    buckets: HashMap<u64, Vec<usize>>,
    catch_all: Vec<usize>,
}

impl View for FilterIndex {
    type V = Seq<NetworkRuleView>;

    /// The rules, in the order in which they were given.
    closed spec fn view(&self) -> Seq<NetworkRuleView> {
        rule_views(self.rules@)
    }
}

impl FilterIndex {
    /// Every rule is filed in its list, and the lists keep the order of the rules.
    #[verifier::type_invariant]
    spec fn wf(&self) -> bool {
        self.rules@.len() <= usize::MAX && filed_upto(
            rule_views(self.rules@),
            self.keyed,
            self.buckets@,
            self.catch_all@,
            self.rules@.len() as int,
        )
    }

    /// Whether rules are bucketed by key.
    pub closed spec fn is_keyed(&self) -> bool {
        self.keyed
    }

    /// Builds the index over `rules`, which keep their order. With `keyed`
    /// unset every rule goes to the catch-all list: lookups then walk all
    /// rules and find the same matches.
    pub fn build(rules: Vec<NetworkRule>, keyed: bool) -> (idx: FilterIndex)
        ensures
            idx@ == rule_views(rules@),
            idx.is_keyed() == keyed,
    {
        let ghost rv = rule_views(rules@);
        let mut buckets: HashMap<u64, Vec<usize>> = HashMap::new();
        let mut catch_all: Vec<usize> = Vec::new();
        let total = rules.len();
        let mut i: usize = 0;
        while i < total
            invariant
                i <= total == rules@.len(),
                rv == rule_views(rules@),
                filed_upto(rv, keyed, buckets@, catch_all@, i as int),
            decreases total - i,
        {
            let key = if keyed {
                key_of_body(rules[i].body.as_slice())
            } else {
                None
            };
            assert(key == filed_under(keyed, rv[i as int].body));
            let ghost old_buckets = buckets@;
            match key {
                Some(key) => {
                    let mut bucket = match buckets.remove(&key) {
                        Some(b) => b,
                        None => Vec::new(),
                    };
                    assert(bucket@ == bucket_of(old_buckets, key));
                    bucket.push(i);
                    buckets.insert(key, bucket);
                    proof {
                        assert forall|k: u64| #[trigger]
                            bucket_of(buckets@, k) == filed_numbers(rv, keyed, Some(k), i + 1) by {
                            assert(bucket_of(old_buckets, k) == filed_numbers(
                                rv,
                                keyed,
                                Some(k),
                                i as int,
                            ));
                            if k != key {
                                assert(buckets@.contains_key(k) == old_buckets.contains_key(k));
                            }
                        }
                    }
                },
                None => {
                    catch_all.push(i);
                    proof {
                        assert forall|k: u64| #[trigger]
                            bucket_of(buckets@, k) == filed_numbers(rv, keyed, Some(k), i + 1) by {
                            assert(bucket_of(old_buckets, k) == filed_numbers(
                                rv,
                                keyed,
                                Some(k),
                                i as int,
                            ));
                        }
                    }
                },
            }
            i += 1;
        }
        FilterIndex { rules, keyed, buckets, catch_all }
    }

    /// How many rules the index holds.
    pub fn len(&self) -> (n: usize)
        ensures
            n == self@.len(),
    {
        self.rules.len()
    }

    /// Rule number `i`.
    pub fn rule(&self, i: usize) -> (r: &NetworkRule)
        requires
            i < self@.len(),
        ensures
            r@ == self@[i as int],
    {
        &self.rules[i]
    }

    /// The numbers of the rules that a lookup for `url` comes upon: the
    /// rules of the catch-all list, then for each window of the URL the
    /// rules filed under its key, each list in the order of the rules. No
    /// rule that can match the URL is left out.
    pub fn candidates_for(&self, url: &[u8]) -> (c: Vec<usize>)
        ensures
            c@ == candidates_of(self@, self.is_keyed(), url@),
            self@.len() <= usize::MAX,
            forall|q: int| 0 <= q < c@.len() ==> #[trigger] c@[q] < self@.len(),
            forall|x: usize|
                x < self@.len() && holds_runs(url@, (#[trigger] self@[x as int]).body) ==> c@.contains(
                    x,
                ),
    {
        proof {
            use_type_invariant(self);
        }
        let ghost rv = rule_views(self.rules@);
        let ghost n = self.rules@.len() as int;
        let mut c: Vec<usize> = Vec::new();
        let mut j: usize = 0;
        while j < self.catch_all.len()
            invariant
                j <= self.catch_all@.len(),
                c@ == self.catch_all@.subrange(0, j as int),
            decreases self.catch_all@.len() - j,
        {
            c.push(self.catch_all[j]);
            assert(self.catch_all@.subrange(0, j + 1) =~= self.catch_all@.subrange(0, j as int).push(
                self.catch_all@[j as int],
            ));
            j += 1;
        }
        assert(self.catch_all@.subrange(0, j as int) =~= self.catch_all@);
        let len = url.len();
        let mut o: usize = 0;
        assert(c@ =~= self.catch_all@ + gathered(rv, self.keyed, url@, 0));
        while len >= KEY_WIDTH && o <= len - KEY_WIDTH
            invariant
                filed_upto(rv, self.keyed, self.buckets@, self.catch_all@, n),
                rv.len() == n,
                len == url@.len(),
                o <= window_count(url@),
                c@ == self.catch_all@ + gathered(rv, self.keyed, url@, o as int),
            decreases len + 1 - o,
        {
            let key = key_at(url, o);
            let ghost start = c@;
            assert(bucket_of(self.buckets@, key) == filed_numbers(rv, self.keyed, Some(key), n));
            match self.buckets.get(&key) {
                Some(bucket) => {
                    let mut t: usize = 0;
                    while t < bucket.len()
                        invariant
                            t <= bucket@.len(),
                            c@ == start + bucket@.subrange(0, t as int),
                        decreases bucket@.len() - t,
                    {
                        c.push(bucket[t]);
                        assert(bucket@.subrange(0, t + 1) =~= bucket@.subrange(0, t as int).push(
                            bucket@[t as int],
                        ));
                        t += 1;
                    }
                    assert(bucket@.subrange(0, t as int) =~= bucket@);
                },
                None => {
                    assert(start + Seq::<usize>::empty() =~= start);
                },
            }
            assert(c@ =~= self.catch_all@ + gathered(rv, self.keyed, url@, o + 1));
            o += 1;
        }
        proof {
            assert(o == window_count(url@));
            assert forall|q: int| 0 <= q < c@.len() implies #[trigger] c@[q] < self@.len() by {
                assert(c@.contains(c@[q]));
                lemma_candidates_members(rv, self.keyed, url@, c@[q]);
            }
            assert forall|x: usize|
                x < self@.len() && holds_runs(
                    url@,
                    (#[trigger] self@[x as int]).body,
                ) implies c@.contains(x) by {
                lemma_runs_come_upon(self.keyed, rv[x as int].body, url@);
                lemma_candidates_members(rv, self.keyed, url@, x);
            }
        }
        c
    }
}

} // verus!
