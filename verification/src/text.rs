//! Byte-string helpers shared by the parsers and matchers.
//!
//! All text is handled as UTF-8 bytes; only ASCII letters are case-folded.

use vstd::prelude::*;

verus! {

/// The ASCII lower-case form of one byte.
pub open spec fn lower_byte(b: u8) -> u8 {
    if 0x41 <= b && b <= 0x5a {
        (b + 0x20) as u8
    } else {
        b
    }
}

/// A byte string with every ASCII upper-case letter folded to lower case.
pub open spec fn lower(s: Seq<u8>) -> Seq<u8> {
    Seq::new(s.len(), |i: int| lower_byte(s[i]))
}

/// Space, tab and carriage return.
pub open spec fn is_blank(b: u8) -> bool {
    b == 0x20 || b == 0x09 || b == 0x0d
}

/// The least index at or after `from` that holds `c`, or the length of `s`.
pub open spec fn next_index(s: Seq<u8>, from: int, c: u8) -> int
    decreases s.len() - from,
{
    if from < 0 || from >= s.len() {
        s.len() as int
    } else if s[from] == c {
        from
    } else {
        next_index(s, from + 1, c)
    }
}

/// The pieces of `s` between occurrences of `sep`; there is always at least one piece.
pub open spec fn split(s: Seq<u8>, sep: u8) -> Seq<Seq<u8>>
    decreases s.len(),
{
    if s.len() == 0 {
        seq![Seq::<u8>::empty()]
    } else {
        let before = split(s.drop_last(), sep);
        if s.last() == sep {
            before.push(Seq::<u8>::empty())
        } else {
            before.drop_last().push(before.last().push(s.last()))
        }
    }
}

/// The index just past the last `c` before `end`, or zero when there is none.
pub open spec fn after_last(s: Seq<u8>, end: int, c: u8) -> int
    decreases end,
{
    if end <= 0 || end > s.len() {
        0
    } else if s[end - 1] == c {
        end
    } else {
        after_last(s, end - 1, c)
    }
}

/// A number made of the first `n` bytes of `s`, for use as a bucket key.
/// Equal byte strings give equal numbers.
pub open spec fn fold_hash(s: Seq<u8>, n: int) -> u64
    decreases n,
{
    if n <= 0 {
        0
    } else {
        ((fold_hash(s, n - 1) % 0x1_0000_0000_0000) * 257 + s[n - 1]) as u64
    }
}

/// The views of a list of byte strings.
pub open spec fn piece_views(v: Seq<Vec<u8>>) -> Seq<Seq<u8>> {
    Seq::new(v.len(), |i: int| v[i]@)
}

/// The first `n` parts, with `sep` between each two.
pub open spec fn joined(parts: Seq<Seq<u8>>, sep: u8, n: int) -> Seq<u8>
    decreases n,
{
    if n <= 0 {
        Seq::empty()
    } else if n == 1 {
        parts[0]
    } else {
        joined(parts, sep, n - 1).push(sep) + parts[n - 1]
    }
}

/// The first index at or after `from` that holds no blank byte.
pub open spec fn skip_blank(s: Seq<u8>, from: int) -> int
    decreases s.len() - from,
{
    if 0 <= from < s.len() && is_blank(s[from]) {
        skip_blank(s, from + 1)
    } else {
        from
    }
}

/// The end of `s[from..end]` once trailing blank bytes are dropped.
pub open spec fn drop_blank(s: Seq<u8>, from: int, end: int) -> int
    decreases end,
{
    if 0 <= from < end <= s.len() && is_blank(s[end - 1]) {
        drop_blank(s, from, end - 1)
    } else {
        end
    }
}

/// `s` without leading and trailing blank bytes.
pub open spec fn trim(s: Seq<u8>) -> Seq<u8> {
    let a = skip_blank(s, 0);
    s.subrange(a, drop_blank(s, a, s.len() as int))
}

/// `s` begins with `prefix`.
pub open spec fn starts_with(s: Seq<u8>, prefix: Seq<u8>) -> bool {
    prefix.len() <= s.len() && s.subrange(0, prefix.len() as int) == prefix
}

/// `s` ends with `suffix`.
pub open spec fn ends_with(s: Seq<u8>, suffix: Seq<u8>) -> bool {
    suffix.len() <= s.len() && s.subrange(s.len() - suffix.len(), s.len() as int) == suffix
}

/// What `next_index` returns is the first occurrence at or after `from`.
pub proof fn lemma_next_index(s: Seq<u8>, from: int, c: u8)
    requires
        0 <= from <= s.len(),
    ensures
        from <= next_index(s, from, c) <= s.len(),
        next_index(s, from, c) < s.len() ==> s[next_index(s, from, c)] == c,
        forall|j: int| from <= j < next_index(s, from, c) ==> s[j] != c,
    decreases s.len() - from,
{
    if from < s.len() && s[from] != c {
        lemma_next_index(s, from + 1, c);
    }
}

/// What `after_last` returns lies just past the last occurrence before `end`.
pub proof fn lemma_after_last(s: Seq<u8>, end: int, c: u8)
    requires
        0 <= end <= s.len(),
    ensures
        0 <= after_last(s, end, c) <= end,
        after_last(s, end, c) > 0 ==> s[after_last(s, end, c) - 1] == c,
        forall|j: int| after_last(s, end, c) <= j < end ==> s[j] != c,
    decreases end,
{
    if end > 0 && s[end - 1] != c {
        lemma_after_last(s, end - 1, c);
    }
}

/// A sequence with one more element holds what it held before, and that element.
pub proof fn lemma_push_contains<T>(s: Seq<T>, x: T, y: T)
    ensures
        s.push(x).contains(y) <==> (s.contains(y) || x == y),
{
    if s.contains(y) {
        let j = choose|j: int| 0 <= j < s.len() && s[j] == y;
        assert(s.push(x)[j] == y);
    }
    if x == y {
        assert(s.push(x)[s.len() as int] == y);
    }
    if s.push(x).contains(y) {
        let j = choose|j: int| 0 <= j < s.push(x).len() && s.push(x)[j] == y;
        if j < s.len() {
            assert(s[j] == y);
        }
    }
}

/// In a string that ends with `t`, the search for the last `c` finds what
/// it finds in `t`, moved by the length of what stands before `t`.
pub proof fn lemma_after_last_in_suffix(s: Seq<u8>, t: Seq<u8>, end: int, c: u8)
    requires
        t.len() <= s.len(),
        s.subrange(s.len() - t.len(), s.len() as int) == t,
        0 <= end <= t.len(),
    ensures
        after_last(t, end, c) > 0 ==> after_last(s, s.len() - t.len() + end, c) == s.len() - t.len()
            + after_last(t, end, c),
        after_last(t, end, c) == 0 ==> after_last(s, s.len() - t.len() + end, c) == after_last(
            s,
            s.len() - t.len(),
            c,
        ),
    decreases end,
{
    let off = s.len() - t.len();
    if end > 0 {
        assert(t[end - 1] == s.subrange(off, s.len() as int)[end - 1]);
        assert(s[off + end - 1] == t[end - 1]);
        if t[end - 1] != c {
            lemma_after_last_in_suffix(s, t, end - 1, c);
        }
    }
}

/// Two sequences joined hold what either holds.
pub proof fn lemma_join_contains<T>(a: Seq<T>, b: Seq<T>, y: T)
    ensures
        (a + b).contains(y) <==> (a.contains(y) || b.contains(y)),
{
    if a.contains(y) {
        let j = choose|j: int| 0 <= j < a.len() && a[j] == y;
        assert((a + b)[j] == y);
    }
    if b.contains(y) {
        let j = choose|j: int| 0 <= j < b.len() && b[j] == y;
        assert((a + b)[a.len() + j] == y);
    }
    if (a + b).contains(y) {
        let j = choose|j: int| 0 <= j < (a + b).len() && (a + b)[j] == y;
        if j < a.len() {
            assert(a[j] == y);
        } else {
            assert(b[j - a.len()] == y);
        }
    }
}

/// What the first `n` parts give when joined depends on those parts only.
pub proof fn lemma_joined_prefix(p: Seq<Seq<u8>>, q: Seq<Seq<u8>>, sep: u8, n: int)
    requires
        0 <= n <= p.len(),
        n <= q.len(),
        forall|i: int| 0 <= i < n ==> p[i] == q[i],
    ensures
        joined(p, sep, n) == joined(q, sep, n),
    decreases n,
{
    if n > 1 {
        lemma_joined_prefix(p, q, sep, n - 1);
    }
}

/// The pieces of a split, joined by the separator, give the text back.
pub proof fn lemma_split_joins_back(s: Seq<u8>, sep: u8)
    ensures
        joined(split(s, sep), sep, split(s, sep).len() as int) == s,
    decreases s.len(),
{
    lemma_split_pieces(s, sep);
    if s.len() > 0 {
        let t = s.drop_last();
        let c = s.last();
        lemma_split_joins_back(t, sep);
        lemma_split_pieces(t, sep);
        let before = split(t, sep);
        let n = before.len() as int;
        assert(t.push(c) =~= s);
        if c == sep {
            let now = before.push(Seq::<u8>::empty());
            lemma_joined_prefix(now, before, sep, n);
            assert(joined(now, sep, n + 1) =~= s);
        } else {
            let now = before.drop_last().push(before.last().push(c));
            if n > 1 {
                lemma_joined_prefix(now, before, sep, n - 1);
                assert(joined(now, sep, n) =~= s);
            } else {
                assert(joined(now, sep, n) =~= s);
            }
        }
    }
}

/// No piece of a split holds the separator.
pub proof fn lemma_split_pieces(s: Seq<u8>, sep: u8)
    ensures
        split(s, sep).len() >= 1,
        forall|k: int| 0 <= k < split(s, sep).len() ==> !(#[trigger] split(s, sep)[k]).contains(sep),
    decreases s.len(),
{
    if s.len() > 0 {
        lemma_split_pieces(s.drop_last(), sep);
        let before = split(s.drop_last(), sep);
        if s.last() != sep {
            let grown = before.last().push(s.last());
            assert forall|j: int| 0 <= j < grown.len() implies grown[j] != sep by {
                if j < before.last().len() {
                    assert(before.last().contains(grown[j]));
                }
            }
        }
    }
}

/// The ASCII lower-case form of one byte.
pub fn to_lower_byte(b: u8) -> (r: u8)
    ensures
        r == lower_byte(b),
{
    if b >= 0x41 && b <= 0x5a {
        b + 0x20
    } else {
        b
    }
}

/// A copy with every ASCII upper-case letter folded to lower case.
pub fn to_lower(s: &[u8]) -> (r: Vec<u8>)
    ensures
        r@ == lower(s@),
{
    let mut out: Vec<u8> = Vec::new();
    let mut i: usize = 0;
    while i < s.len()
        invariant
            0 <= i <= s.len(),
            out@.len() == i,
            forall|j: int| 0 <= j < i ==> out@[j] == lower_byte(s@[j]),
        decreases s.len() - i,
    {
        out.push(to_lower_byte(s[i]));
        i += 1;
    }
    assert(out@ =~= lower(s@));
    out
}

/// A copy of a byte string.
pub fn copy_bytes(s: &[u8]) -> (r: Vec<u8>)
    ensures
        r@ == s@,
{
    let mut out: Vec<u8> = Vec::new();
    let mut i: usize = 0;
    while i < s.len()
        invariant
            0 <= i <= s.len(),
            out@.len() == i,
            forall|j: int| 0 <= j < i ==> out@[j] == s@[j],
        decreases s.len() - i,
    {
        out.push(s[i]);
        i += 1;
    }
    assert(out@ =~= s@);
    out
}

/// The bytes of `a` followed by those of `b`.
pub fn append_bytes(a: &[u8], b: &[u8]) -> (r: Vec<u8>)
    ensures
        r@ == a@ + b@,
{
    let mut out = copy_bytes(a);
    let mut i: usize = 0;
    while i < b.len()
        invariant
            0 <= i <= b.len(),
            out@ == a@ + b@.subrange(0, i as int),
        decreases b.len() - i,
    {
        out.push(b[i]);
        assert(b@.subrange(0, i + 1) =~= b@.subrange(0, i as int).push(b@[i as int]));
        i += 1;
    }
    assert(b@.subrange(0, i as int) =~= b@);
    out
}

/// Whether two byte strings are equal.
pub fn bytes_eq(a: &[u8], b: &[u8]) -> (r: bool)
    ensures
        r == (a@ == b@),
{
    if a.len() != b.len() {
        return false;
    }
    let mut i: usize = 0;
    while i < a.len()
        invariant
            0 <= i <= a.len(),
            a.len() == b.len(),
            forall|j: int| 0 <= j < i ==> a@[j] == b@[j],
        decreases a.len() - i,
    {
        if a[i] != b[i] {
            return false;
        }
        i += 1;
    }
    assert(a@ =~= b@);
    true
}

/// Whether `s` begins with `prefix`.
pub fn has_prefix(s: &[u8], prefix: &[u8]) -> (r: bool)
    ensures
        r == starts_with(s@, prefix@),
{
    if prefix.len() > s.len() {
        return false;
    }
    bytes_eq(&s[0..prefix.len()], prefix)
}

/// Whether `s` ends with `suffix`.
pub fn has_suffix(s: &[u8], suffix: &[u8]) -> (r: bool)
    ensures
        r == ends_with(s@, suffix@),
{
    if suffix.len() > s.len() {
        return false;
    }
    bytes_eq(&s[s.len() - suffix.len()..s.len()], suffix)
}

/// The least index at or after `from` that holds `c`, or the length of `s`.
pub fn find_byte(s: &[u8], from: usize, c: u8) -> (r: usize)
    requires
        from <= s.len(),
    ensures
        r == next_index(s@, from as int, c),
        from <= r <= s.len(),
        r < s.len() ==> s@[r as int] == c,
        forall|j: int| from <= j < r ==> s@[j] != c,
{
    proof {
        lemma_next_index(s@, from as int, c);
    }
    let mut i: usize = from;
    while i < s.len() && s[i] != c
        invariant
            from <= i <= s.len(),
            next_index(s@, from as int, c) == next_index(s@, i as int, c),
        decreases s.len() - i,
    {
        i += 1;
    }
    i
}

/// A number made of the bytes of `s`, for use as a bucket key.
pub fn hash_bytes(s: &[u8]) -> (h: u64)
    ensures
        h == fold_hash(s@, s@.len() as int),
{
    let mut h: u64 = 0;
    let mut i: usize = 0;
    while i < s.len()
        invariant
            0 <= i <= s.len(),
            h == fold_hash(s@, i as int),
        decreases s.len() - i,
    {
        h = (h % 0x1_0000_0000_0000) * 257 + (s[i] as u64);
        i += 1;
    }
    h
}

/// The index just past the last `c` before `end`, or zero when there is none.
pub fn find_after_last(s: &[u8], end: usize, c: u8) -> (r: usize)
    requires
        end <= s@.len(),
    ensures
        r == after_last(s@, end as int, c),
        r <= end,
        r > 0 ==> s@[r - 1] == c,
        forall|j: int| r <= j < end ==> s@[j] != c,
{
    proof {
        lemma_after_last(s@, end as int, c);
    }
    let mut i: usize = end;
    while i > 0 && s[i - 1] != c
        invariant
            i <= end <= s@.len(),
            after_last(s@, end as int, c) == after_last(s@, i as int, c),
        decreases i,
    {
        i -= 1;
    }
    i
}

/// The ranges of the pieces of `s` between occurrences of `sep`: the first
/// begins at zero, each next one just past the separator that ends the one
/// before, and the last ends where `s` ends.
pub fn split_spans(s: &[u8], sep: u8) -> (spans: Vec<(usize, usize)>)
    ensures
        spans@.len() == split(s@, sep).len(),
        forall|k: int|
            0 <= k < spans@.len() ==> (#[trigger] spans@[k]).0 <= spans@[k].1 <= s@.len()
                && s@.subrange(spans@[k].0 as int, spans@[k].1 as int) == split(s@, sep)[k],
        spans@[0].0 == 0,
        spans@[spans@.len() - 1].1 == s@.len(),
        forall|k: int| 0 < k < spans@.len() ==> (#[trigger] spans@[k]).0 == spans@[k - 1].1 + 1,
{
    let mut out: Vec<(usize, usize)> = Vec::new();
    let mut start: usize = 0;
    let mut i: usize = 0;
    assert(s@.subrange(0, 0) =~= Seq::<u8>::empty());
    while i < s.len()
        invariant
            0 <= start <= i <= s.len(),
            out@.len() + 1 == split(s@.subrange(0, i as int), sep).len(),
            s@.subrange(start as int, i as int) == split(s@.subrange(0, i as int), sep).last(),
            out@.len() == 0 ==> start == 0,
            out@.len() > 0 ==> out@[0].0 == 0 && start == out@[out@.len() - 1].1 + 1,
            forall|k: int| 0 < k < out@.len() ==> (#[trigger] out@[k]).0 == out@[k - 1].1 + 1,
            forall|k: int|
                0 <= k < out@.len() ==> (#[trigger] out@[k]).0 <= out@[k].1 <= s@.len()
                    && s@.subrange(out@[k].0 as int, out@[k].1 as int) == split(
                    s@.subrange(0, i as int),
                    sep,
                )[k],
        decreases s.len() - i,
    {
        let ghost prev = s@.subrange(0, i as int);
        let ghost next = s@.subrange(0, i + 1);
        assert(next.drop_last() =~= prev);
        assert(next.last() == s@[i as int]);
        if s[i] == sep {
            out.push((start, i));
            start = i + 1;
            assert(s@.subrange(start as int, i + 1) =~= Seq::<u8>::empty());
        } else {
            assert(s@.subrange(start as int, i + 1) =~= s@.subrange(start as int, i as int).push(
                s@[i as int],
            ));
        }
        i += 1;
    }
    assert(s@.subrange(0, i as int) =~= s@);
    out.push((start, i));
    out
}

/// The parts of a list joined by a separator.
pub fn join(parts: &Vec<Vec<u8>>, sep: u8) -> (r: Vec<u8>)
    ensures
        r@ == joined(piece_views(parts@), sep, parts@.len() as int),
{
    let ghost pv = piece_views(parts@);
    let mut out: Vec<u8> = Vec::new();
    let mut k: usize = 0;
    while k < parts.len()
        invariant
            k <= parts@.len(),
            pv == piece_views(parts@),
            out@ == joined(pv, sep, k as int),
        decreases parts@.len() - k,
    {
        if k > 0 {
            out.push(sep);
        }
        let part = &parts[k];
        assert(pv[k as int] == part@);
        let ghost head = out@;
        let mut t: usize = 0;
        while t < part.len()
            invariant
                t <= part@.len(),
                out@ == head + part@.subrange(0, t as int),
            decreases part@.len() - t,
        {
            out.push(part[t]);
            assert(part@.subrange(0, t + 1) =~= part@.subrange(0, t as int).push(part@[t as int]));
            t += 1;
        }
        assert(part@.subrange(0, t as int) =~= part@);
        assert(out@ =~= joined(pv, sep, k + 1));
        k += 1;
    }
    out
}

/// The range of `s` that is left when blanks are dropped at both ends.
pub fn trim_span(s: &[u8]) -> (span: (usize, usize))
    ensures
        span.0 <= span.1 <= s@.len(),
        span.0 == skip_blank(s@, 0),
        span.1 == drop_blank(s@, span.0 as int, s@.len() as int),
        s@.subrange(span.0 as int, span.1 as int) == trim(s@),
{
    let mut a: usize = 0;
    while a < s.len() && (s[a] == 0x20 || s[a] == 0x09 || s[a] == 0x0d)
        invariant
            0 <= a <= s.len(),
            skip_blank(s@, 0) == skip_blank(s@, a as int),
        decreases s.len() - a,
    {
        a += 1;
    }
    let mut b: usize = s.len();
    while b > a && (s[b - 1] == 0x20 || s[b - 1] == 0x09 || s[b - 1] == 0x0d)
        invariant
            a <= b <= s.len(),
            drop_blank(s@, a as int, s@.len() as int) == drop_blank(s@, a as int, b as int),
        decreases b,
    {
        b -= 1;
    }
    (a, b)
}

} // verus!
