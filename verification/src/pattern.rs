//! Network-rule patterns and how they match a URL.
//!
//! A pattern body is a byte string in which `*` stands for any run of bytes
//! and `^` for one separator byte or the end of the URL; every other byte
//! stands for itself. A pattern may be anchored on the left (to the start of
//! the URL or to the start of a host label) and on the right (to the end of
//! the URL).

use vstd::prelude::*;

verus! {

/// `*`
pub const WILDCARD: u8 = 0x2a;

/// `^`
pub const SEPARATOR: u8 = 0x5e;

/// Number of pattern bytes that make up an index key.
pub const KEY_WIDTH: usize = 4;

/// Where a match may begin.
#[derive(Clone, Copy, Debug, PartialEq, Eq)]
pub enum Anchor {
    /// Anywhere in the URL.
    Free,
    /// At the first byte of the URL (`|`).
    Start,
    /// At the first byte of the host or right after a dot inside it (`||`).
    Host,
}

/// A byte of a pattern body that stands for itself.
pub open spec fn is_literal(c: u8) -> bool {
    c != WILDCARD && c != SEPARATOR
}

/// A URL byte that `^` accepts: an ASCII byte that is no letter, no digit and
/// none of `_`, `-`, `.`, `%`.
pub open spec fn is_separator(b: u8) -> bool {
    b < 0x80 && !(0x30 <= b <= 0x39) && !(0x41 <= b <= 0x5a) && !(0x61 <= b <= 0x7a) && b != 0x5f
        && b != 0x2d && b != 0x2e && b != 0x25
}

/// A match under anchor `left` may begin at `pos`.
pub open spec fn start_ok(
    left: Anchor,
    url: Seq<u8>,
    host_start: int,
    host_end: int,
    pos: int,
) -> bool {
    0 <= pos <= url.len() && match left {
        Anchor::Free => true,
        Anchor::Start => pos == 0,
        Anchor::Host => pos == host_start || (host_start < pos < host_end && url[pos - 1] == 0x2e),
    }
}

/// `m` lies between zero and `pos`.
pub open spec fn upto(m: int, pos: int) -> bool {
    0 <= m <= pos
}

/// The first `k` bytes of `body` match a stretch of `url` that begins at an
/// allowed start and ends just before `pos`.
pub open spec fn prefix_match(
    body: Seq<u8>,
    left: Anchor,
    url: Seq<u8>,
    host_start: int,
    host_end: int,
    k: int,
    pos: int,
) -> bool
    decreases k,
{
    if k <= 0 {
        start_ok(left, url, host_start, host_end, pos)
    } else if !(0 <= pos <= url.len()) {
        false
    } else if body[k - 1] == WILDCARD {
        exists|m: int|
            #[trigger] upto(m, pos) && prefix_match(body, left, url, host_start, host_end, k - 1, m)
    } else if body[k - 1] == SEPARATOR {
        (pos > 0 && is_separator(url[pos - 1]) && prefix_match(
            body,
            left,
            url,
            host_start,
            host_end,
            k - 1,
            pos - 1,
        )) || (pos == url.len() && prefix_match(body, left, url, host_start, host_end, k - 1, pos))
    } else {
        pos > 0 && url[pos - 1] == body[k - 1] && prefix_match(
            body,
            left,
            url,
            host_start,
            host_end,
            k - 1,
            pos - 1,
        )
    }
}

/// The whole pattern matches somewhere in `url`.
pub open spec fn pattern_matches(
    body: Seq<u8>,
    left: Anchor,
    right: bool,
    url: Seq<u8>,
    host_start: int,
    host_end: int,
) -> bool {
    exists|pos: int|
        0 <= pos <= url.len() && (right ==> pos == url.len()) && #[trigger] prefix_match(
            body,
            left,
            url,
            host_start,
            host_end,
            body.len() as int,
            pos,
        )
}

/// `body[a..b]` holds literal bytes only.
pub open spec fn literal_run(body: Seq<u8>, a: int, b: int) -> bool {
    0 <= a <= b <= body.len() && forall|i: int| a <= i < b ==> is_literal(#[trigger] body[i])
}

/// `body[a..b]` is the longest run of literal bytes, and the first of that length.
pub open spec fn is_token(body: Seq<u8>, a: int, b: int) -> bool {
    &&& literal_run(body, a, b)
    &&& forall|x: int, y: int| #[trigger] literal_run(body, x, y) ==> y - x <= b - a
    &&& forall|x: int| 0 <= x < a ==> !#[trigger] literal_run(body, x, x + (b - a))
}

/// What a walk over a pattern body knows after `n` bytes: the best literal
/// run so far, and where the run that is still open began.
pub struct RunScan {
    pub best_a: int,
    pub best_b: int,
    pub open: int,
}

/// The walk that finds the longest literal run: a literal byte lengthens the
/// open run, which becomes the best when it is longer than the best; any
/// other byte closes it.
pub open spec fn run_scan(body: Seq<u8>, n: int) -> RunScan
    decreases n,
{
    if n <= 0 {
        RunScan { best_a: 0, best_b: 0, open: 0 }
    } else {
        let before = run_scan(body, n - 1);
        if !is_literal(body[n - 1]) {
            RunScan { open: n, ..before }
        } else if n - before.open > before.best_b - before.best_a {
            RunScan { best_a: before.open, best_b: n, open: before.open }
        } else {
            before
        }
    }
}

/// The longest run of literal bytes of a body, the first of that length.
pub open spec fn token_span(body: Seq<u8>) -> (int, int) {
    (run_scan(body, body.len() as int).best_a, run_scan(body, body.len() as int).best_b)
}

/// The index key of a body: the key of the first bytes of its longest
/// literal run, if the run is long enough to have one.
pub open spec fn token_key(body: Seq<u8>) -> Option<u64> {
    let span = token_span(body);
    if span.1 - span.0 >= KEY_WIDTH {
        Some(window_key(body, span.0))
    } else {
        None
    }
}

/// Some window of `url` has the key.
pub open spec fn has_window(url: Seq<u8>, key: u64) -> bool {
    exists|at: int| 0 <= at && at + KEY_WIDTH <= url.len() && #[trigger] window_key(url, at) == key
}

/// `needle` occurs in `hay` at offset `at`.
pub open spec fn occurs_at(hay: Seq<u8>, needle: Seq<u8>, at: int) -> bool {
    0 <= at && at + needle.len() <= hay.len() && hay.subrange(at, at + needle.len()) == needle
}

/// `needle` occurs somewhere in `hay`.
pub open spec fn occurs(hay: Seq<u8>, needle: Seq<u8>) -> bool {
    exists|at: int| occurs_at(hay, needle, at)
}

/// Four bytes of `s` from `at`, packed big-endian into one number.
pub open spec fn window_key(s: Seq<u8>, at: int) -> u64 {
    (s[at] as u64 * 0x100_0000 + s[at + 1] as u64 * 0x1_0000 + s[at + 2] as u64 * 0x100 + s[at
        + 3] as u64) as u64
}

/// What the walk knows after `n` bytes is right: its best run is the longest
/// literal run that ends within the first `n` bytes, and the first such.
pub proof fn lemma_run_scan(body: Seq<u8>, n: int)
    requires
        0 <= n <= body.len(),
    ensures
        ({
            let s = run_scan(body, n);
            &&& 0 <= s.open <= n
            &&& s.best_a <= s.best_b <= n
            &&& literal_run(body, s.open, n)
            &&& s.open > 0 ==> !is_literal(body[s.open - 1])
            &&& literal_run(body, s.best_a, s.best_b)
            &&& n - s.open <= s.best_b - s.best_a
            &&& forall|x: int, y: int| #[trigger]
                literal_run(body, x, y) && y <= n ==> y - x <= s.best_b - s.best_a
            &&& forall|x: int|
                0 <= x < s.best_a ==> !#[trigger] literal_run(body, x, x + (s.best_b - s.best_a))
        }),
    decreases n,
{
    if n > 0 {
        lemma_run_scan(body, n - 1);
        let before = run_scan(body, n - 1);
        let s = run_scan(body, n);
        if is_literal(body[n - 1]) {
            assert forall|x: int, y: int| #[trigger]
                literal_run(body, x, y) && y <= n implies y - x <= s.best_b - s.best_a by {
                if y == n && x < before.open {
                    assert(is_literal(body[before.open - 1]));
                }
            }
            if n - before.open > before.best_b - before.best_a {
                assert forall|x: int| 0 <= x < s.best_a implies !#[trigger] literal_run(
                    body,
                    x,
                    x + (s.best_b - s.best_a),
                ) by {
                    if literal_run(body, x, x + (s.best_b - s.best_a)) {
                        assert(is_literal(body[before.open - 1]));
                    }
                }
            }
        } else {
            assert forall|x: int, y: int| #[trigger]
                literal_run(body, x, y) && y <= n implies y - x <= s.best_b - s.best_a by {
                if y == n && x < y {
                    assert(is_literal(body[n - 1]));
                }
            }
        }
    }
}

/// The token span of a body is its longest literal run, the first of that length.
pub proof fn lemma_token_span(body: Seq<u8>)
    ensures
        is_token(body, token_span(body).0, token_span(body).1),
{
    lemma_run_scan(body, body.len() as int);
}

/// A URL that holds the longest literal run of a body has a window with the
/// body's key.
pub proof fn lemma_token_window(body: Seq<u8>, url: Seq<u8>)
    requires
        token_key(body) is Some,
        occurs(url, body.subrange(token_span(body).0, token_span(body).0 + KEY_WIDTH)),
    ensures
        has_window(url, token_key(body)->0),
{
    lemma_token_span(body);
    let a = token_span(body).0;
    let run = body.subrange(a, a + KEY_WIDTH);
    let at = choose|at: int| occurs_at(url, run, at);
    let win = url.subrange(at, at + KEY_WIDTH);
    assert(win[0] == url[at] && win[1] == url[at + 1] && win[2] == url[at + 2] && win[3] == url[at
        + 3]);
    assert(run[0] == body[a] && run[1] == body[a + 1] && run[2] == body[a + 2] && run[3] == body[a
        + 3]);
    assert(window_key(url, at) == window_key(body, a));
}

/// A prefix match ends inside the URL.
pub proof fn lemma_prefix_match_in_range(
    body: Seq<u8>,
    left: Anchor,
    url: Seq<u8>,
    host_start: int,
    host_end: int,
    k: int,
    pos: int,
)
    requires
        prefix_match(body, left, url, host_start, host_end, k, pos),
    ensures
        0 <= pos <= url.len(),
{
}

/// A literal run that ends a matched prefix stands in the URL just before the
/// end of the match.
pub proof fn lemma_run_before(
    body: Seq<u8>,
    left: Anchor,
    url: Seq<u8>,
    host_start: int,
    host_end: int,
    a: int,
    b: int,
    pos: int,
)
    requires
        literal_run(body, a, b),
        prefix_match(body, left, url, host_start, host_end, b, pos),
    ensures
        occurs_at(url, body.subrange(a, b), pos - (b - a)),
    decreases b - a,
{
    lemma_prefix_match_in_range(body, left, url, host_start, host_end, b, pos);
    if a == b {
        assert(url.subrange(pos, pos) =~= body.subrange(a, b));
    } else {
        assert(is_literal(body[b - 1]));
        lemma_run_before(body, left, url, host_start, host_end, a, b - 1, pos - 1);
        assert(url.subrange(pos - (b - a), pos) =~= url.subrange(pos - (b - a), pos - 1).push(
            url[pos - 1],
        ));
        assert(body.subrange(a, b) =~= body.subrange(a, b - 1).push(body[b - 1]));
    }
}

/// Every literal run of a pattern occurs in every URL that the pattern matches
/// a prefix of: the ground on which rules are bucketed by a literal key.
pub proof fn lemma_match_holds_run(
    body: Seq<u8>,
    left: Anchor,
    url: Seq<u8>,
    host_start: int,
    host_end: int,
    k: int,
    pos: int,
    a: int,
    b: int,
)
    requires
        literal_run(body, a, b),
        b <= k <= body.len(),
        prefix_match(body, left, url, host_start, host_end, k, pos),
    ensures
        occurs(url, body.subrange(a, b)),
    decreases k,
{
    if k == b {
        lemma_run_before(body, left, url, host_start, host_end, a, b, pos);
        assert(occurs_at(url, body.subrange(a, b), pos - (b - a)));
    } else if body[k - 1] == WILDCARD {
        let m = choose|m: int|
            #[trigger] upto(m, pos) && prefix_match(body, left, url, host_start, host_end, k - 1, m);
        lemma_match_holds_run(body, left, url, host_start, host_end, k - 1, m, a, b);
    } else if body[k - 1] == SEPARATOR {
        if pos > 0 && is_separator(url[pos - 1]) && prefix_match(
            body,
            left,
            url,
            host_start,
            host_end,
            k - 1,
            pos - 1,
        ) {
            lemma_match_holds_run(body, left, url, host_start, host_end, k - 1, pos - 1, a, b);
        } else {
            lemma_match_holds_run(body, left, url, host_start, host_end, k - 1, pos, a, b);
        }
    } else {
        lemma_match_holds_run(body, left, url, host_start, host_end, k - 1, pos - 1, a, b);
    }
}

/// A body of literal bytes matches the stretch of the URL in which it stands.
pub proof fn lemma_literal_prefix(
    body: Seq<u8>,
    url: Seq<u8>,
    host_start: int,
    host_end: int,
    at: int,
    k: int,
)
    requires
        literal_run(body, 0, body.len() as int),
        occurs_at(url, body, at),
        0 <= k <= body.len(),
    ensures
        prefix_match(body, Anchor::Free, url, host_start, host_end, k, at + k),
    decreases k,
{
    if k > 0 {
        lemma_literal_prefix(body, url, host_start, host_end, at, k - 1);
        assert(url.subrange(at, at + body.len())[k - 1] == body[k - 1]);
        assert(is_literal(body[k - 1]));
    }
}

/// A pattern of literal bytes without anchors matches exactly the URLs in
/// which it occurs.
pub proof fn lemma_literal_pattern(body: Seq<u8>, url: Seq<u8>, host_start: int, host_end: int)
    requires
        literal_run(body, 0, body.len() as int),
    ensures
        pattern_matches(body, Anchor::Free, false, url, host_start, host_end) <==> occurs(url, body),
{
    if pattern_matches(body, Anchor::Free, false, url, host_start, host_end) {
        lemma_pattern_holds_run(
            body,
            Anchor::Free,
            false,
            url,
            host_start,
            host_end,
            0,
            body.len() as int,
        );
        assert(body.subrange(0, body.len() as int) =~= body);
    }
    if occurs(url, body) {
        let at = choose|at: int| occurs_at(url, body, at);
        lemma_literal_prefix(body, url, host_start, host_end, at, body.len() as int);
    }
}

/// A URL that a pattern matches holds each of the pattern's literal runs.
pub proof fn lemma_pattern_holds_run(
    body: Seq<u8>,
    left: Anchor,
    right: bool,
    url: Seq<u8>,
    host_start: int,
    host_end: int,
    a: int,
    b: int,
)
    requires
        literal_run(body, a, b),
        pattern_matches(body, left, right, url, host_start, host_end),
    ensures
        occurs(url, body.subrange(a, b)),
{
    let pos = choose|pos: int|
        0 <= pos <= url.len() && (right ==> pos == url.len()) && #[trigger] prefix_match(
            body,
            left,
            url,
            host_start,
            host_end,
            body.len() as int,
            pos,
        );
    lemma_match_holds_run(body, left, url, host_start, host_end, body.len() as int, pos, a, b);
}

/// Whether `^` accepts the byte.
pub fn byte_is_separator(b: u8) -> (r: bool)
    ensures
        r == is_separator(b),
{
    b < 0x80 && !(0x30 <= b && b <= 0x39) && !(0x41 <= b && b <= 0x5a) && !(0x61 <= b && b <= 0x7a)
        && b != 0x5f && b != 0x2d && b != 0x2e && b != 0x25
}

/// Whether a match under `left` may begin at `pos`.
pub fn may_start(left: Anchor, url: &[u8], host_start: usize, host_end: usize, pos: usize) -> (r:
    bool)
    ensures
        r == start_ok(left, url@, host_start as int, host_end as int, pos as int),
{
    if pos > url.len() {
        return false;
    }
    match left {
        Anchor::Free => true,
        Anchor::Start => pos == 0,
        Anchor::Host => pos == host_start || (host_start < pos && pos < host_end && url[pos - 1]
            == 0x2e),
    }
}

/// The longest run of literal bytes in a pattern body, as a half-open
/// range; of several longest runs, the first.
pub fn longest_literal(body: &[u8]) -> (span: (usize, usize))
    ensures
        (span.0 as int, span.1 as int) == token_span(body@),
        is_token(body@, span.0 as int, span.1 as int),
        span.0 <= span.1 <= body@.len(),
{
    let mut best_a: usize = 0;
    let mut best_b: usize = 0;
    let mut start: usize = 0;
    let mut i: usize = 0;
    while i < body.len()
        invariant
            0 <= start <= i <= body.len(),
            best_a <= best_b <= i,
            run_scan(body@, i as int) == (RunScan {
                best_a: best_a as int,
                best_b: best_b as int,
                open: start as int,
            }),
        decreases body.len() - i,
    {
        let c = body[i];
        if c == WILDCARD || c == SEPARATOR {
            start = i + 1;
        } else if i + 1 - start > best_b - best_a {
            best_a = start;
            best_b = i + 1;
        }
        i += 1;
    }
    proof {
        lemma_token_span(body@);
    }
    (best_a, best_b)
}

/// The index key of a pattern body, if its longest literal run has one.
pub fn key_of_body(body: &[u8]) -> (key: Option<u64>)
    ensures
        key == token_key(body@),
{
    let span = longest_literal(body);
    if span.1 - span.0 >= KEY_WIDTH {
        Some(key_at(body, span.0))
    } else {
        None
    }
}

/// Whether a pattern matches a URL whose host spans `host_start..host_end`.
///
/// The URL is walked once; for each position the set of pattern prefixes
/// that can end there is derived from the set for the position before.
pub fn matches_url(
    body: &[u8],
    left: Anchor,
    right: bool,
    url: &[u8],
    host_start: usize,
    host_end: usize,
) -> (r: bool)
    ensures
        r == pattern_matches(body@, left, right, url@, host_start as int, host_end as int),
{
    let n = url.len();
    let p = body.len();
    let ghost hs = host_start as int;
    let ghost he = host_end as int;
    let mut prev: Vec<bool> = Vec::new();
    let first = may_start(left, url, host_start, host_end, 0);
    let mut k: usize = 0;
    while k < p
        invariant
            k <= p,
            p == body@.len(),
            n == url@.len(),
            prev@.len() == k,
            first == start_ok(left, url@, hs, he, 0),
            forall|j: int|
                0 <= j < k ==> #[trigger] prev@[j] == prefix_match(body@, left, url@, hs, he, j + 1, 0),
        decreases p - k,
    {
        let c = body[k];
        let under = if k == 0 {
            first
        } else {
            prev[k - 1]
        };
        let v = if c == WILDCARD {
            under
        } else if c == SEPARATOR {
            n == 0 && under
        } else {
            false
        };
        proof {
            assert(under == prefix_match(body@, left, url@, hs, he, k as int, 0));
            if c == WILDCARD && under {
                assert(upto(0, 0));
            }
            assert(v == prefix_match(body@, left, url@, hs, he, k + 1, 0));
        }
        prev.push(v);
        k += 1;
    }
    let whole = if p == 0 {
        first
    } else {
        prev[p - 1]
    };
    if whole && (!right || n == 0) {
        assert(prefix_match(body@, left, url@, hs, he, p as int, 0));
        return true;
    }
    let mut cur: Vec<bool> = Vec::new();
    let mut pos: usize = 0;
    while pos < n
        invariant
            pos <= n,
            p == body@.len(),
            n == url@.len(),
            hs == host_start,
            he == host_end,
            prev@.len() == p,
            forall|j: int|
                0 <= j < p ==> #[trigger] prev@[j] == prefix_match(body@, left, url@, hs, he, j + 1, pos as int),
            forall|q: int|
                0 <= q <= pos && (right ==> q == n) ==> !prefix_match(
                    body@,
                    left,
                    url@,
                    hs,
                    he,
                    p as int,
                    q,
                ),
        decreases n - pos,
    {
        let b = url[pos];
        let start_prev = may_start(left, url, host_start, host_end, pos);
        let start_cur = may_start(left, url, host_start, host_end, pos + 1);
        cur.clear();
        let mut k: usize = 0;
        while k < p
            invariant
                k <= p,
                pos < n,
                p == body@.len(),
                n == url@.len(),
                b == url@[pos as int],
                prev@.len() == p,
                cur@.len() == k,
                start_prev == start_ok(left, url@, hs, he, pos as int),
                start_cur == start_ok(left, url@, hs, he, pos + 1),
                forall|j: int|
                0 <= j < p ==> #[trigger] prev@[j] == prefix_match(body@, left, url@, hs, he, j + 1, pos as int),
                forall|j: int|
                0 <= j < k ==> #[trigger] cur@[j] == prefix_match(body@, left, url@, hs, he, j + 1, pos + 1),
            decreases p - k,
        {
            let c = body[k];
            let under_prev = if k == 0 {
                start_prev
            } else {
                prev[k - 1]
            };
            let under_cur = if k == 0 {
                start_cur
            } else {
                cur[k - 1]
            };
            let v = if c == WILDCARD {
                under_cur || prev[k]
            } else if c == SEPARATOR {
                (byte_is_separator(b) && under_prev) || (pos + 1 == n && under_cur)
            } else {
                b == c && under_prev
            };
            proof {
                assert(under_prev == prefix_match(body@, left, url@, hs, he, k as int, pos as int));
                assert(under_cur == prefix_match(body@, left, url@, hs, he, k as int, pos + 1));
                if c == WILDCARD {
                    if under_cur {
                        assert(upto(pos + 1, pos + 1));
                    }
                    assert(prev@[k as int] == prefix_match(
                        body@,
                        left,
                        url@,
                        hs,
                        he,
                        k + 1,
                        pos as int,
                    ));
                    if prev@[k as int] {
                        let m = choose|m: int| #[trigger]
                            upto(m, pos as int) && prefix_match(body@, left, url@, hs, he, k as int, m);
                        assert(upto(m, pos + 1));
                    }
                    if prefix_match(body@, left, url@, hs, he, k + 1, pos + 1) {
                        let m = choose|m: int| #[trigger]
                            upto(m, pos + 1) && prefix_match(body@, left, url@, hs, he, k as int, m);
                        if m != pos + 1 {
                            assert(upto(m, pos as int));
                        }
                    }
                }
                assert(v == prefix_match(body@, left, url@, hs, he, k + 1, pos + 1));
            }
            cur.push(v);
            k += 1;
        }
        std::mem::swap(&mut prev, &mut cur);
        pos += 1;
        let whole = if p == 0 {
            start_cur
        } else {
            prev[p - 1]
        };
        if whole && (!right || pos == n) {
            assert(prefix_match(body@, left, url@, hs, he, p as int, pos as int));
            return true;
        }
    }
    false
}

/// The index key of the four bytes of `s` from `at`.
pub fn key_at(s: &[u8], at: usize) -> (key: u64)
    requires
        at + KEY_WIDTH <= s@.len(),
    ensures
        key == window_key(s@, at as int),
{
    (s[at] as u64) * 0x100_0000 + (s[at + 1] as u64) * 0x1_0000 + (s[at + 2] as u64) * 0x100 + (s[at
        + 3] as u64)
}

} // verus!
