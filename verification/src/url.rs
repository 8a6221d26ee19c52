//! Absolute URLs, host names and registrable domains.
//!
//! A URL is accepted in the form `scheme://host[:port][/path][?query][#fragment]`.
//! User information and bracketed address literals are not part of the
//! accepted grammar. The registrable domain of a host is found with a small
//! built-in table of two-label public suffixes; every other suffix is taken to
//! be one label long.

use vstd::prelude::*;
use vstd::string::*;
use crate::text::{
    after_last, bytes_eq, ends_with, find_after_last, find_byte, has_suffix, lemma_after_last,
    lemma_after_last_in_suffix, next_index,
};

verus! {

/// Classes of bytes that the URL grammar speaks of.
#[derive(Clone, Copy, Debug)]
pub enum ByteClass {
    /// Letters, digits, `+`, `-` and `.`.
    Scheme,
    /// Letters, digits, `-`, `.` and `_`.
    Host,
    /// Decimal digits.
    Digit,
    /// Everything but blanks and control bytes.
    Visible,
}

/// An ASCII letter.
pub open spec fn is_alpha(b: u8) -> bool {
    (0x41 <= b <= 0x5a) || (0x61 <= b <= 0x7a)
}

/// A decimal digit.
pub open spec fn is_digit(b: u8) -> bool {
    0x30 <= b <= 0x39
}

/// The byte belongs to the class.
pub open spec fn in_class(class: ByteClass, b: u8) -> bool {
    match class {
        ByteClass::Scheme => is_alpha(b) || is_digit(b) || b == 0x2b || b == 0x2d || b == 0x2e,
        ByteClass::Host => is_alpha(b) || is_digit(b) || b == 0x2d || b == 0x2e || b == 0x5f,
        ByteClass::Digit => is_digit(b),
        ByteClass::Visible => b > 0x20 && b != 0x7f,
    }
}

/// Every byte of `s[a..b]` is in `class`.
pub open spec fn all_in_class(s: Seq<u8>, a: int, b: int, class: ByteClass) -> bool {
    forall|i: int| a <= i < b ==> in_class(class, #[trigger] s[i])
}

/// The lesser of two numbers.
pub open spec fn min_int(a: int, b: int) -> int {
    if a <= b {
        a
    } else {
        b
    }
}

/// Index of the colon that ends the scheme.
pub open spec fn scheme_end(u: Seq<u8>) -> int {
    next_index(u, 0, 0x3a)
}

/// Index of the first byte of the host.
pub open spec fn host_start(u: Seq<u8>) -> int {
    scheme_end(u) + 3
}

/// Index just past the authority: the first `/`, `?` or `#` after the host
/// begins, or the end of the URL.
pub open spec fn authority_end(u: Seq<u8>) -> int {
    let from = host_start(u);
    min_int(
        next_index(u, from, 0x2f),
        min_int(next_index(u, from, 0x3f), next_index(u, from, 0x23)),
    )
}

/// Index just past the host: the colon before a port, or the end of the authority.
pub open spec fn host_end(u: Seq<u8>) -> int {
    min_int(next_index(u, host_start(u), 0x3a), authority_end(u))
}

/// `u` is an absolute URL of the accepted form.
pub open spec fn well_formed_url(u: Seq<u8>) -> bool {
    let c = scheme_end(u);
    &&& 1 <= c
    &&& c + 3 <= u.len()
    &&& is_alpha(u[0])
    &&& all_in_class(u, 0, c, ByteClass::Scheme)
    &&& u[c + 1] == 0x2f
    &&& u[c + 2] == 0x2f
    &&& host_start(u) < host_end(u)
    &&& all_in_class(u, host_start(u), host_end(u), ByteClass::Host)
    &&& all_in_class(u, host_end(u) + 1, authority_end(u), ByteClass::Digit)
    &&& all_in_class(u, 0, u.len() as int, ByteClass::Visible)
}

/// The host of a well-formed URL.
pub open spec fn host_of(u: Seq<u8>) -> Seq<u8> {
    u.subrange(host_start(u), host_end(u))
}

/// Index at which the label that ends just before `end` begins.
pub open spec fn label_start(h: Seq<u8>, end: int) -> int {
    after_last(h, end, 0x2e)
}

/// The two-label public suffixes that the engine knows.
pub open spec fn is_known_suffix(s: Seq<u8>) -> bool {
    s == "co.uk".spec_bytes() || s == "org.uk".spec_bytes() || s == "ac.uk".spec_bytes() || s
        == "gov.uk".spec_bytes() || s == "com.au".spec_bytes() || s == "net.au".spec_bytes() || s
        == "org.au".spec_bytes() || s == "co.nz".spec_bytes() || s == "co.jp".spec_bytes() || s
        == "co.in".spec_bytes() || s == "co.kr".spec_bytes() || s == "co.za".spec_bytes() || s
        == "com.br".spec_bytes() || s == "com.cn".spec_bytes() || s == "com.mx".spec_bytes() || s
        == "com.tr".spec_bytes()
}

/// Index at which the registrable domain of host `h` begins.
///
/// A host of one label, or one whose last label is numeric (an address), is
/// its own registrable domain. Otherwise the registrable domain is the public
/// suffix and the label before it.
pub open spec fn registrable_start(h: Seq<u8>) -> int {
    let n = h.len() as int;
    let last = label_start(h, n);
    if last == 0 || all_in_class(h, last, n, ByteClass::Digit) {
        0
    } else {
        let second = label_start(h, last - 1);
        if second == 0 {
            0
        } else if is_known_suffix(h.subrange(second, n)) {
            label_start(h, second - 1)
        } else {
            second
        }
    }
}

/// The registrable domain of host `h`.
pub open spec fn registrable(h: Seq<u8>) -> Seq<u8> {
    h.subrange(registrable_start(h), h.len() as int)
}

/// Host `h` is the non-empty domain `d` or a subdomain of it.
pub open spec fn host_under(h: Seq<u8>, d: Seq<u8>) -> bool {
    d.len() > 0 && (h == d || (h.len() > d.len() && h[h.len() - d.len() - 1] == 0x2e && ends_with(
        h,
        d,
    )))
}

/// The last two labels of a name, by which names are bucketed; a name of
/// one label has none.
pub open spec fn site_of(d: Seq<u8>) -> Option<Seq<u8>> {
    let last = label_start(d, d.len() as int);
    if last == 0 {
        None
    } else {
        Some(d.subrange(label_start(d, last - 1), d.len() as int))
    }
}

/// A host under a domain of two or more labels ends with the same two labels.
pub proof fn lemma_site_of_subdomain(h: Seq<u8>, d: Seq<u8>)
    requires
        host_under(h, d),
        site_of(d) is Some,
    ensures
        site_of(h) == site_of(d),
{
    if h != d {
        let off = h.len() - d.len();
        let n = d.len() as int;
        let last = label_start(d, n);
        lemma_after_last(d, n, 0x2e);
        lemma_after_last_in_suffix(h, d, n, 0x2e);
        assert(label_start(h, h.len() as int) == off + last);
        let second = label_start(d, last - 1);
        lemma_after_last(d, last - 1, 0x2e);
        lemma_after_last_in_suffix(h, d, last - 1, 0x2e);
        if second > 0 {
            assert(label_start(h, off + last - 1) == off + second);
            assert(h.subrange(off + second, h.len() as int) =~= d.subrange(second, n));
        } else {
            assert(after_last(h, off, 0x2e) == off);
            assert(label_start(h, off + last - 1) == off);
            assert(h.subrange(off, h.len() as int) =~= d.subrange(0, n));
        }
    }
}

/// A host is its registrable domain or a subdomain of it.
pub proof fn lemma_registrable_is_parent(h: Seq<u8>)
    requires
        registrable(h).len() > 0,
    ensures
        host_under(h, registrable(h)),
{
    let n = h.len() as int;
    let d = registrable(h);
    let r = registrable_start(h);
    lemma_after_last(h, n, 0x2e);
    let last = label_start(h, n);
    if last > 0 {
        lemma_after_last(h, last - 1, 0x2e);
        let second = label_start(h, last - 1);
        if second > 0 {
            lemma_after_last(h, second - 1, 0x2e);
        }
    }
    if r == 0 {
        assert(d =~= h);
    } else {
        assert(h[r - 1] == 0x2e);
        assert(h.subrange(n - d.len(), n) =~= d);
    }
}

/// A host is under itself, and a host under `d` stays under `d` when labels
/// are put in front of it.
pub proof fn lemma_host_under_subdomain(h: Seq<u8>, d: Seq<u8>, label: Seq<u8>)
    requires
        host_under(h, d),
    ensures
        host_under(d, d),
        host_under(label + seq![0x2eu8] + h, d),
{
    let g = label + seq![0x2eu8] + h;
    assert(g.subrange(g.len() - h.len(), g.len() as int) =~= h);
    if h == d {
        assert(g[g.len() - d.len() - 1] == 0x2e);
    } else {
        assert(g.subrange(g.len() - d.len(), g.len() as int) =~= h.subrange(
            h.len() - d.len(),
            h.len() as int,
        ));
        assert(g[g.len() - d.len() - 1] == h[h.len() - d.len() - 1]);
    }
}

/// Whether the byte belongs to the class.
pub fn byte_in_class(class: ByteClass, b: u8) -> (r: bool)
    ensures
        r == in_class(class, b),
{
    let alpha = (0x41 <= b && b <= 0x5a) || (0x61 <= b && b <= 0x7a);
    let digit = 0x30 <= b && b <= 0x39;
    match class {
        ByteClass::Scheme => alpha || digit || b == 0x2b || b == 0x2d || b == 0x2e,
        ByteClass::Host => alpha || digit || b == 0x2d || b == 0x2e || b == 0x5f,
        ByteClass::Digit => digit,
        ByteClass::Visible => b > 0x20 && b != 0x7f,
    }
}

/// Whether every byte of `s[a..b]` belongs to the class.
pub fn check_class(s: &[u8], a: usize, b: usize, class: ByteClass) -> (r: bool)
    requires
        a <= b <= s@.len(),
    ensures
        r == all_in_class(s@, a as int, b as int, class),
{
    let mut i: usize = a;
    while i < b
        invariant
            a <= i <= b <= s@.len(),
            all_in_class(s@, a as int, i as int, class),
        decreases b - i,
    {
        if !byte_in_class(class, s[i]) {
            return false;
        }
        i += 1;
    }
    true
}

/// Splits an absolute URL and returns the range of its host, or `None` when
/// the URL is not of the accepted form.
pub fn parse_url(u: &[u8]) -> (r: Option<(usize, usize)>)
    ensures
        match r {
            Some(span) => well_formed_url(u@) && span.0 == host_start(u@) && span.1 == host_end(u@)
                && span.0 < span.1 <= u@.len(),
            None => !well_formed_url(u@),
        },
{
    let n = u.len();
    let c = find_byte(u, 0, 0x3a);
    if c < 1 || n < 3 || c > n - 3 {
        return None;
    }
    let b0 = u[0];
    if !((0x41 <= b0 && b0 <= 0x5a) || (0x61 <= b0 && b0 <= 0x7a)) {
        return None;
    }
    if !check_class(u, 0, c, ByteClass::Scheme) {
        return None;
    }
    if u[c + 1] != 0x2f || u[c + 2] != 0x2f {
        return None;
    }
    let hs = c + 3;
    let slash = find_byte(u, hs, 0x2f);
    let query = find_byte(u, hs, 0x3f);
    let fragment = find_byte(u, hs, 0x23);
    let later = if query <= fragment {
        query
    } else {
        fragment
    };
    let ae = if slash <= later {
        slash
    } else {
        later
    };
    let colon = find_byte(u, hs, 0x3a);
    let he = if colon <= ae {
        colon
    } else {
        ae
    };
    if hs >= he {
        return None;
    }
    if !check_class(u, hs, he, ByteClass::Host) {
        return None;
    }
    if he < ae {
        if !check_class(u, he + 1, ae, ByteClass::Digit) {
            return None;
        }
    }
    if !check_class(u, 0, n, ByteClass::Visible) {
        return None;
    }
    Some((hs, he))
}

/// Index at which the label that ends just before `end` begins.
pub fn find_label_start(h: &[u8], end: usize) -> (r: usize)
    requires
        end <= h@.len(),
    ensures
        r == label_start(h@, end as int),
        r <= end,
{
    find_after_last(h, end, 0x2e)
}

/// Whether `s` is one of the two-label public suffixes that the engine knows.
pub fn known_suffix(s: &[u8]) -> (r: bool)
    ensures
        r == is_known_suffix(s@),
{
    bytes_eq(s, "co.uk".as_bytes()) || bytes_eq(s, "org.uk".as_bytes()) || bytes_eq(
        s,
        "ac.uk".as_bytes(),
    ) || bytes_eq(s, "gov.uk".as_bytes()) || bytes_eq(s, "com.au".as_bytes()) || bytes_eq(
        s,
        "net.au".as_bytes(),
    ) || bytes_eq(s, "org.au".as_bytes()) || bytes_eq(s, "co.nz".as_bytes()) || bytes_eq(
        s,
        "co.jp".as_bytes(),
    ) || bytes_eq(s, "co.in".as_bytes()) || bytes_eq(s, "co.kr".as_bytes()) || bytes_eq(
        s,
        "co.za".as_bytes(),
    ) || bytes_eq(s, "com.br".as_bytes()) || bytes_eq(s, "com.cn".as_bytes()) || bytes_eq(
        s,
        "com.mx".as_bytes(),
    ) || bytes_eq(s, "com.tr".as_bytes())
}

/// Index at which the last two labels of `d` begin, if `d` has two labels.
pub fn find_site(d: &[u8]) -> (r: Option<usize>)
    ensures
        match r {
            Some(start) => start <= d@.len() && site_of(d@) == Some(
                d@.subrange(start as int, d@.len() as int),
            ),
            None => site_of(d@) is None,
        },
{
    let last = find_label_start(d, d.len());
    if last == 0 {
        None
    } else {
        Some(find_label_start(d, last - 1))
    }
}

/// Index at which the registrable domain of `h` begins.
pub fn find_registrable_start(h: &[u8]) -> (r: usize)
    ensures
        r == registrable_start(h@),
        r <= h@.len(),
{
    let n = h.len();
    let last = find_label_start(h, n);
    if last == 0 || check_class(h, last, n, ByteClass::Digit) {
        return 0;
    }
    let second = find_label_start(h, last - 1);
    if second == 0 {
        0
    } else if known_suffix(&h[second..n]) {
        find_label_start(h, second - 1)
    } else {
        second
    }
}

/// Whether two hosts have the same registrable domain.
pub fn same_site(a: &[u8], b: &[u8]) -> (r: bool)
    ensures
        r == (registrable(a@) == registrable(b@)),
{
    let sa = find_registrable_start(a);
    let sb = find_registrable_start(b);
    bytes_eq(&a[sa..a.len()], &b[sb..b.len()])
}

/// Whether host `h` is the domain `d` or a subdomain of it.
pub fn is_host_under(h: &[u8], d: &[u8]) -> (r: bool)
    ensures
        r == host_under(h@, d@),
{
    if d.len() == 0 {
        return false;
    }
    if h.len() == d.len() {
        return bytes_eq(h, d);
    }
    if h.len() < d.len() {
        return false;
    }
    h[h.len() - d.len() - 1] == 0x2e && has_suffix(h, d)
}

} // verus!
