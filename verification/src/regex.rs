//! Regular-expression patterns, in a reduced grammar.
//!
//! A supported expression is a sequence of items, each an atom with an
//! optional `*`, `+` or `?` behind it, with an optional `^` in front of the
//! sequence and an optional `$` behind it. An atom is a plain byte, `.`, an
//! escaped punctuation byte, one of `\d \w \s \D \W \S`, or a class in
//! square brackets made of bytes, ranges and escapes. Groups, alternation
//! and counted repetition are not supported. Letters match without regard
//! to ASCII case.

use vstd::prelude::*;
use crate::text::{lower_byte, to_lower_byte};

verus! {

/// How often an atom may stand.
#[derive(Clone, Copy, Debug, PartialEq, Eq, Structural)]
pub enum Repeat {
    /// Exactly once.
    Once,
    /// Once or not at all (`?`).
    Optional,
    /// Any number of times (`*`).
    Many,
    /// Once or more (`+`).
    AtLeastOnce,
}

/// What stands for one byte of the URL.
#[derive(Clone, Copy, Debug, PartialEq, Eq, Structural)]
pub enum Atom {
    /// This byte.
    Byte(u8),
    /// Any byte.
    Any,
    /// A byte in one of the ranges numbered `from..to`, or with `negated` a
    /// byte in none of them.
    Class { negated: bool, from: usize, to: usize },
}

/// One item of an expression.
#[derive(Clone, Copy, Debug, PartialEq, Eq, Structural)]
pub struct Element {
    pub atom: Atom,
    pub repeat: Repeat,
}

/// A compiled expression.
#[derive(Debug)]
pub struct Regex {
    /// The items, in order.
    pub elements: Vec<Element>,
    /// The byte ranges that the classes of the items refer to.
    pub ranges: Vec<(u8, u8)>,
    /// A match must begin at the first byte of the URL (`^`).
    pub from_start: bool,
    /// A match must reach the end of the URL (`$`).
    pub to_end: bool,
}

/// What a compiled expression holds.
pub struct RegexView {
    pub elements: Seq<Element>,
    pub ranges: Seq<(u8, u8)>,
    pub from_start: bool,
    pub to_end: bool,
}

impl View for Regex {
    type V = RegexView;

    open spec fn view(&self) -> RegexView {
        RegexView {
            elements: self.elements@,
            ranges: self.ranges@,
            from_start: self.from_start,
            to_end: self.to_end,
        }
    }
}

/// The ASCII upper-case form of one byte.
pub open spec fn upper_byte(b: u8) -> u8 {
    if 0x61 <= b && b <= 0x7a {
        (b - 0x20) as u8
    } else {
        b
    }
}

/// One of the ranges numbered `from..to` holds the byte.
pub open spec fn in_ranges(ranges: Seq<(u8, u8)>, from: int, to: int, b: u8) -> bool {
    exists|j: int|
        from <= j < to && 0 <= j < ranges.len() && (#[trigger] ranges[j]).0 <= b && b <= ranges[j].1
}

/// An atom accepts a byte of a lower-cased URL. A class accepts a letter in
/// either case.
pub open spec fn atom_accepts(ranges: Seq<(u8, u8)>, atom: Atom, b: u8) -> bool {
    match atom {
        Atom::Byte(c) => b == c,
        Atom::Any => true,
        Atom::Class { negated, from, to } => negated != (in_ranges(ranges, from as int, to as int, b)
            || in_ranges(ranges, from as int, to as int, upper_byte(b))),
    }
}

/// The first `k` items match a stretch of `url` that ends just before `pos`
/// and begins at an allowed start.
pub open spec fn regex_prefix(re: RegexView, url: Seq<u8>, k: int, pos: int) -> bool
    decreases k, pos,
{
    if k <= 0 {
        0 <= pos <= url.len() && (re.from_start ==> pos == 0)
    } else if !(0 <= pos <= url.len()) || k > re.elements.len() {
        false
    } else {
        let e = re.elements[k - 1];
        let step = pos > 0 && atom_accepts(re.ranges, e.atom, url[pos - 1]);
        match e.repeat {
            Repeat::Once => step && regex_prefix(re, url, k - 1, pos - 1),
            Repeat::Optional => regex_prefix(re, url, k - 1, pos) || (step && regex_prefix(
                re,
                url,
                k - 1,
                pos - 1,
            )),
            Repeat::Many => regex_prefix(re, url, k - 1, pos) || (step && regex_prefix(
                re,
                url,
                k,
                pos - 1,
            )),
            Repeat::AtLeastOnce => step && (regex_prefix(re, url, k - 1, pos - 1) || regex_prefix(
                re,
                url,
                k,
                pos - 1,
            )),
        }
    }
}

/// The expression matches somewhere in `url`.
pub open spec fn regex_matches(re: RegexView, url: Seq<u8>) -> bool {
    exists|pos: int|
        0 <= pos <= url.len() && (re.to_end ==> pos == url.len()) && #[trigger] regex_prefix(
            re,
            url,
            re.elements.len() as int,
            pos,
        )
}

/// The atom accepts every byte of `url[m..pos]`.
pub open spec fn run_accepted(re: RegexView, atom: Atom, url: Seq<u8>, m: int, pos: int) -> bool {
    forall|j: int| m <= j < pos ==> atom_accepts(re.ranges, atom, #[trigger] url[j])
}

/// An item marked `*` matches a run of bytes that its atom accepts: the
/// first `k` items match up to `pos` exactly when the items before the last
/// match up to some `m`, and the atom accepts all bytes from `m` to `pos`.
pub proof fn lemma_many_is_a_run(re: RegexView, url: Seq<u8>, k: int, pos: int)
    requires
        0 < k <= re.elements.len(),
        0 <= pos <= url.len(),
        re.elements[k - 1].repeat == Repeat::Many,
    ensures
        regex_prefix(re, url, k, pos) <==> exists|m: int|
            0 <= m <= pos && #[trigger] regex_prefix(re, url, k - 1, m) && run_accepted(
                re,
                re.elements[k - 1].atom,
                url,
                m,
                pos,
            ),
    decreases pos,
{
    let atom = re.elements[k - 1].atom;
    if pos > 0 {
        lemma_many_is_a_run(re, url, k, pos - 1);
    }
    if regex_prefix(re, url, k, pos) {
        if regex_prefix(re, url, k - 1, pos) {
            assert(run_accepted(re, atom, url, pos, pos));
        } else {
            let m = choose|m: int|
                0 <= m <= pos - 1 && #[trigger] regex_prefix(re, url, k - 1, m) && run_accepted(
                    re,
                    atom,
                    url,
                    m,
                    pos - 1,
                );
            assert(run_accepted(re, atom, url, m, pos));
        }
    }
    if exists|m: int|
        0 <= m <= pos && #[trigger] regex_prefix(re, url, k - 1, m) && run_accepted(
            re,
            atom,
            url,
            m,
            pos,
        ) {
        let m = choose|m: int|
            0 <= m <= pos && #[trigger] regex_prefix(re, url, k - 1, m) && run_accepted(
                re,
                atom,
                url,
                m,
                pos,
            );
        if m < pos {
            assert(atom_accepts(re.ranges, atom, url[pos - 1]));
            assert(run_accepted(re, atom, url, m, pos - 1));
        }
    }
}

/// An ASCII punctuation byte.
pub open spec fn is_punct(c: u8) -> bool {
    (0x21 <= c && c <= 0x2f) || (0x3a <= c && c <= 0x40) || (0x5b <= c && c <= 0x60) || (0x7b <= c
        && c <= 0x7e)
}

/// A byte that has a meaning of its own in an expression and cannot stand
/// for itself unescaped: one of `] ( ) { } | * + ? ^ $`.
pub open spec fn is_special(c: u8) -> bool {
    c == 0x5d || c == 0x28 || c == 0x29 || c == 0x7b || c == 0x7d || c == 0x7c || c == 0x2a || c
        == 0x2b || c == 0x3f || c == 0x5e || c == 0x24
}

/// The letter of a class escape: `d`, `w` or `s`, in either case.
pub open spec fn is_class_letter(c: u8) -> bool {
    lower_byte(c) == 0x64 || lower_byte(c) == 0x77 || lower_byte(c) == 0x73
}

/// The ranges of a class escape: digits for `d`, letters, digits and `_`
/// for `w`, blanks for `s`.
pub open spec fn letter_ranges(letter: u8) -> Seq<(u8, u8)> {
    if letter == 0x64 {
        seq![(0x30u8, 0x39u8)]
    } else if letter == 0x77 {
        seq![(0x30u8, 0x39u8), (0x41u8, 0x5au8), (0x5fu8, 0x5fu8), (0x61u8, 0x7au8)]
    } else {
        seq![(0x09u8, 0x0du8), (0x20u8, 0x20u8)]
    }
}

/// The items of a class from index `i` on, put behind `ranges`, and the
/// index just past the closing bracket; `None` when the class is not closed
/// or holds what is not supported.
pub open spec fn class_from(text: Seq<u8>, i: int, ranges: Seq<(u8, u8)>) -> Option<
    (Seq<(u8, u8)>, int),
>
    decreases text.len() - i,
{
    if i < 0 || i >= text.len() {
        None
    } else if text[i] == 0x5d {
        Some((ranges, i + 1))
    } else if text[i] == 0x5c {
        if i + 1 >= text.len() {
            None
        } else if is_class_letter(text[i + 1]) && text[i + 1] == lower_byte(text[i + 1]) {
            class_from(text, i + 2, ranges + letter_ranges(text[i + 1]))
        } else if is_punct(text[i + 1]) {
            class_from(text, i + 2, ranges.push((text[i + 1], text[i + 1])))
        } else {
            None
        }
    } else if i + 2 < text.len() && text[i + 1] == 0x2d && text[i + 2] != 0x5d && text[i + 2]
        != 0x5c {
        if text[i] <= text[i + 2] {
            class_from(text, i + 3, ranges.push((text[i], text[i + 2])))
        } else {
            None
        }
    } else {
        class_from(text, i + 1, ranges.push((text[i], text[i])))
    }
}

/// The atom that begins at index `i`, the ranges with those of the atom
/// behind them, and the index just past the atom.
pub open spec fn atom_from(text: Seq<u8>, i: int, ranges: Seq<(u8, u8)>) -> Option<
    (Atom, Seq<(u8, u8)>, int),
> {
    let c = text[i];
    if c == 0x2e {
        Some((Atom::Any, ranges, i + 1))
    } else if c == 0x5c {
        if i + 1 >= text.len() {
            None
        } else if is_class_letter(text[i + 1]) {
            let held = ranges + letter_ranges(lower_byte(text[i + 1]));
            Some(
                (
                    Atom::Class {
                        negated: text[i + 1] != lower_byte(text[i + 1]),
                        from: ranges.len() as usize,
                        to: held.len() as usize,
                    },
                    held,
                    i + 2,
                ),
            )
        } else if is_punct(text[i + 1]) {
            Some((Atom::Byte(text[i + 1]), ranges, i + 2))
        } else {
            None
        }
    } else if c == 0x5b {
        let negated = i + 1 < text.len() && text[i + 1] == 0x5e;
        match class_from(text, if negated { i + 2 } else { i + 1 }, ranges) {
            Some((held, next)) => if held.len() > ranges.len() {
                Some(
                    (
                        Atom::Class {
                            negated,
                            from: ranges.len() as usize,
                            to: held.len() as usize,
                        },
                        held,
                        next,
                    ),
                )
            } else {
                None
            },
            None => None,
        }
    } else if is_special(c) {
        None
    } else {
        Some((Atom::Byte(lower_byte(c)), ranges, i + 1))
    }
}

/// The repetition mark at index `i`, if there is one.
pub open spec fn repeat_from(text: Seq<u8>, i: int) -> Repeat {
    if 0 <= i < text.len() && text[i] == 0x2a {
        Repeat::Many
    } else if 0 <= i < text.len() && text[i] == 0x2b {
        Repeat::AtLeastOnce
    } else if 0 <= i < text.len() && text[i] == 0x3f {
        Repeat::Optional
    } else {
        Repeat::Once
    }
}

/// What has been read of an expression.
pub struct Gathered {
    pub elements: Seq<Element>,
    pub ranges: Seq<(u8, u8)>,
    pub to_end: bool,
}

/// The items from index `i` on, put behind what has been read. A `$` is
/// accepted as the last byte only.
pub open spec fn items_from(text: Seq<u8>, i: int, acc: Gathered) -> Option<Gathered>
    decreases text.len() - i,
{
    if i < 0 || i >= text.len() {
        Some(acc)
    } else if text[i] == 0x24 && i == text.len() - 1 {
        Some(Gathered { to_end: true, ..acc })
    } else {
        match atom_from(text, i, acc.ranges) {
            None => None,
            Some((atom, held, next)) => {
                let repeat = repeat_from(text, next);
                let after = if repeat == Repeat::Once {
                    next
                } else {
                    next + 1
                };
                if after <= i || after > text.len() {
                    None
                } else {
                    items_from(
                        text,
                        after,
                        Gathered {
                            elements: acc.elements.push(Element { atom, repeat }),
                            ranges: held,
                            to_end: false,
                        },
                    )
                }
            },
        }
    }
}

/// The expression that a text spells; `None` when the text is empty of
/// items or holds what is not supported.
pub open spec fn regex_of(text: Seq<u8>) -> Option<RegexView> {
    let from_start = text.len() > 0 && text[0] == 0x5e;
    let first = if from_start {
        1int
    } else {
        0int
    };
    match items_from(
        text,
        first,
        Gathered { elements: Seq::empty(), ranges: Seq::empty(), to_end: false },
    ) {
        Some(g) => if g.elements.len() > 0 {
            Some(
                RegexView {
                    elements: g.elements,
                    ranges: g.ranges,
                    from_start,
                    to_end: g.to_end,
                },
            )
        } else {
            None
        },
        None => None,
    }
}

/// The ASCII upper-case form of one byte.
pub fn to_upper_byte(b: u8) -> (r: u8)
    ensures
        r == upper_byte(b),
{
    if b >= 0x61 && b <= 0x7a {
        b - 0x20
    } else {
        b
    }
}

/// Whether one of the ranges numbered `from..to` holds the byte.
pub fn byte_in_ranges(ranges: &Vec<(u8, u8)>, from: usize, to: usize, b: u8) -> (r: bool)
    ensures
        r == in_ranges(ranges@, from as int, to as int, b),
{
    let end = if to < ranges.len() {
        to
    } else {
        ranges.len()
    };
    let mut j: usize = from;
    while j < end
        invariant
            end <= ranges@.len(),
            end <= to,
            end == to || end == ranges@.len(),
            from <= j,
            forall|q: int|
                from <= q < j && q < end ==> !((#[trigger] ranges@[q]).0 <= b && b <= ranges@[q].1),
        decreases end - j,
    {
        let range = ranges[j];
        if range.0 <= b && b <= range.1 {
            return true;
        }
        j += 1;
    }
    false
}

/// Whether an atom accepts a byte of a lower-cased URL.
pub fn accepts(ranges: &Vec<(u8, u8)>, atom: Atom, b: u8) -> (r: bool)
    ensures
        r == atom_accepts(ranges@, atom, b),
{
    match atom {
        Atom::Byte(c) => b == c,
        Atom::Any => true,
        Atom::Class { negated, from, to } => {
            let held = byte_in_ranges(ranges, from, to, b) || byte_in_ranges(
                ranges,
                from,
                to,
                to_upper_byte(b),
            );
            negated != held
        },
    }
}

impl Regex {
    /// Whether the expression matches somewhere in `url`.
    ///
    /// The URL is walked once; for each position the set of item prefixes
    /// that can end there is derived from the set for the position before.
    pub fn matches(&self, url: &[u8]) -> (r: bool)
        ensures
            r == regex_matches(self@, url@),
    {
        let n = url.len();
        let p = self.elements.len();
        let ghost re = self@;
        let mut prev: Vec<bool> = Vec::new();
        let mut k: usize = 0;
        while k < p
            invariant
                k <= p,
                p == self.elements@.len(),
                re == self@,
                n == url@.len(),
                prev@.len() == k,
                forall|j: int| 0 <= j < k ==> #[trigger] prev@[j] == regex_prefix(re, url@, j + 1, 0),
            decreases p - k,
        {
            let e = self.elements[k];
            let under = if k == 0 {
                true
            } else {
                prev[k - 1]
            };
            let v = match e.repeat {
                Repeat::Once => false,
                Repeat::Optional => under,
                Repeat::Many => under,
                Repeat::AtLeastOnce => false,
            };
            proof {
                assert(under == regex_prefix(re, url@, k as int, 0));
                assert(v == regex_prefix(re, url@, k + 1, 0));
            }
            prev.push(v);
            k += 1;
        }
        let whole = if p == 0 {
            true
        } else {
            prev[p - 1]
        };
        if whole && (!self.to_end || n == 0) {
            assert(regex_prefix(re, url@, p as int, 0));
            return true;
        }
        let mut cur: Vec<bool> = Vec::new();
        let mut pos: usize = 0;
        while pos < n
            invariant
                pos <= n,
                p == self.elements@.len(),
                re == self@,
                n == url@.len(),
                prev@.len() == p,
                forall|j: int|
                    0 <= j < p ==> #[trigger] prev@[j] == regex_prefix(re, url@, j + 1, pos as int),
                forall|q: int|
                    0 <= q <= pos && (self.to_end ==> q == n) ==> !regex_prefix(re, url@, p as int, q),
            decreases n - pos,
        {
            let b = url[pos];
            let start_prev = !self.from_start || pos == 0;
            let start_cur = !self.from_start;
            cur.clear();
            let mut k: usize = 0;
            while k < p
                invariant
                    k <= p,
                    pos < n,
                    p == self.elements@.len(),
                    re == self@,
                    n == url@.len(),
                    b == url@[pos as int],
                    prev@.len() == p,
                    cur@.len() == k,
                    start_prev == regex_prefix(re, url@, 0, pos as int),
                    start_cur == regex_prefix(re, url@, 0, pos + 1),
                    forall|j: int|
                        0 <= j < p ==> #[trigger] prev@[j] == regex_prefix(re, url@, j + 1, pos as int),
                    forall|j: int|
                        0 <= j < k ==> #[trigger] cur@[j] == regex_prefix(re, url@, j + 1, pos + 1),
                decreases p - k,
            {
                let e = self.elements[k];
                let step = accepts(&self.ranges, e.atom, b);
                let under_prev = if k == 0 {
                    start_prev
                } else {
                    prev[k - 1]
                };
                let under_cur = if k == 0 {
                    start_cur
                } else {
                    cur[k - 1]
                };
                let v = match e.repeat {
                    Repeat::Once => step && under_prev,
                    Repeat::Optional => under_cur || (step && under_prev),
                    Repeat::Many => under_cur || (step && prev[k]),
                    Repeat::AtLeastOnce => step && (under_prev || prev[k]),
                };
                proof {
                    assert(under_prev == regex_prefix(re, url@, k as int, pos as int));
                    assert(under_cur == regex_prefix(re, url@, k as int, pos + 1));
                    assert(prev@[k as int] == regex_prefix(re, url@, k + 1, pos as int));
                    assert(v == regex_prefix(re, url@, k + 1, pos + 1));
                }
                cur.push(v);
                k += 1;
            }
            std::mem::swap(&mut prev, &mut cur);
            pos += 1;
            let whole = if p == 0 {
                start_cur
            } else {
                prev[p - 1]
            };
            if whole && (!self.to_end || pos == n) {
                assert(regex_prefix(re, url@, p as int, pos as int));
                return true;
            }
        }
        false
    }
}

/// Whether a byte is ASCII punctuation.
pub fn byte_is_punct(c: u8) -> (r: bool)
    ensures
        r == is_punct(c),
{
    (0x21 <= c && c <= 0x2f) || (0x3a <= c && c <= 0x40) || (0x5b <= c && c <= 0x60) || (0x7b <= c
        && c <= 0x7e)
}

/// Puts the ranges of a class escape behind `ranges`.
pub fn push_letter_ranges(ranges: &mut Vec<(u8, u8)>, letter: u8)
    ensures
        final(ranges)@ == old(ranges)@ + letter_ranges(letter),
{
    if letter == 0x64 {
        ranges.push((0x30, 0x39));
    } else if letter == 0x77 {
        ranges.push((0x30, 0x39));
        ranges.push((0x41, 0x5a));
        ranges.push((0x5f, 0x5f));
        ranges.push((0x61, 0x7a));
    } else {
        ranges.push((0x09, 0x0d));
        ranges.push((0x20, 0x20));
    }
    assert(ranges@ =~= old(ranges)@ + letter_ranges(letter));
}

/// Reads the items of a class from index `i` on and puts them behind
/// `ranges`; returns the index just past the closing bracket.
pub fn parse_class(text: &[u8], i: usize, ranges: &mut Vec<(u8, u8)>) -> (r: Option<usize>)
    ensures
        match r {
            Some(next) => class_from(text@, i as int, old(ranges)@) == Some(
                (final(ranges)@, next as int),
            ) && i < next <= text@.len(),
            None => class_from(text@, i as int, old(ranges)@) is None,
        },
{
    let n = text.len();
    let mut j: usize = i;
    loop
        invariant
            n == text@.len(),
            i <= j,
            class_from(text@, j as int, ranges@) == class_from(text@, i as int, old(ranges)@),
        decreases n - j,
    {
        if j >= n {
            return None;
        }
        let c = text[j];
        if c == 0x5d {
            return Some(j + 1);
        } else if c == 0x5c {
            if n - j < 2 {
                return None;
            }
            let e = text[j + 1];
            if e == 0x64 || e == 0x77 || e == 0x73 {
                push_letter_ranges(ranges, e);
            } else if byte_is_punct(e) {
                ranges.push((e, e));
            } else {
                return None;
            }
            j += 2;
        } else if n - j > 2 && text[j + 1] == 0x2d && text[j + 2] != 0x5d && text[j + 2] != 0x5c {
            let hi = text[j + 2];
            if c <= hi {
                ranges.push((c, hi));
            } else {
                return None;
            }
            j += 3;
        } else {
            ranges.push((c, c));
            j += 1;
        }
    }
}

/// Reads the atom that begins at index `i`; its ranges, if it has any, are
/// put behind `ranges`. Returns the atom and the index just past it.
pub fn parse_atom(text: &[u8], i: usize, ranges: &mut Vec<(u8, u8)>) -> (r: Option<(Atom, usize)>)
    requires
        i < text@.len(),
    ensures
        match r {
            Some((atom, next)) => atom_from(text@, i as int, old(ranges)@) == Some(
                (atom, final(ranges)@, next as int),
            ) && i < next <= text@.len(),
            None => atom_from(text@, i as int, old(ranges)@) is None,
        },
{
    let n = text.len();
    let c = text[i];
    if c == 0x2e {
        Some((Atom::Any, i + 1))
    } else if c == 0x5c {
        if n - i < 2 {
            return None;
        }
        let e = text[i + 1];
        let letter = to_lower_byte(e);
        if letter == 0x64 || letter == 0x77 || letter == 0x73 {
            let from = ranges.len();
            push_letter_ranges(ranges, letter);
            Some((Atom::Class { negated: e != letter, from, to: ranges.len() }, i + 2))
        } else if byte_is_punct(e) {
            Some((Atom::Byte(e), i + 2))
        } else {
            None
        }
    } else if c == 0x5b {
        let negated = n - i > 1 && text[i + 1] == 0x5e;
        let first = if negated {
            i + 2
        } else {
            i + 1
        };
        let from = ranges.len();
        match parse_class(text, first, ranges) {
            Some(next) => if ranges.len() > from {
                Some((Atom::Class { negated, from, to: ranges.len() }, next))
            } else {
                None
            },
            None => None,
        }
    } else if c == 0x5d || c == 0x28 || c == 0x29 || c == 0x7b || c == 0x7d || c == 0x7c || c
        == 0x2a || c == 0x2b || c == 0x3f || c == 0x5e || c == 0x24 {
        None
    } else {
        Some((Atom::Byte(to_lower_byte(c)), i + 1))
    }
}

/// Reads an expression.
pub fn parse_regex(text: &[u8]) -> (r: Option<Regex>)
    ensures
        match r {
            Some(re) => Some(re@) == regex_of(text@),
            None => regex_of(text@) is None,
        },
{
    let n = text.len();
    let from_start = n > 0 && text[0] == 0x5e;
    let first: usize = if from_start {
        1
    } else {
        0
    };
    let mut elements: Vec<Element> = Vec::new();
    let mut ranges: Vec<(u8, u8)> = Vec::new();
    let mut to_end = false;
    let mut i: usize = first;
    let ghost whole = items_from(
        text@,
        first as int,
        Gathered { elements: Seq::empty(), ranges: Seq::empty(), to_end: false },
    );
    while i < n
        invariant
            n == text@.len(),
            i <= n,
            to_end ==> i == n,
            from_start == (text@.len() > 0 && text@[0] == 0x5e),
            first == (if from_start { 1int } else { 0int }),
            whole == items_from(
                text@,
                first as int,
                Gathered { elements: Seq::empty(), ranges: Seq::empty(), to_end: false },
            ),
            whole == (if to_end {
                Some(Gathered { elements: elements@, ranges: ranges@, to_end: true })
            } else {
                items_from(
                    text@,
                    i as int,
                    Gathered { elements: elements@, ranges: ranges@, to_end: false },
                )
            }),
        decreases n - i,
    {
        if text[i] == 0x24 && i == n - 1 {
            to_end = true;
            i += 1;
        } else {
            match parse_atom(text, i, &mut ranges) {
                None => {
                    return None;
                },
                Some((atom, next)) => {
                    let repeat = if next < n && text[next] == 0x2a {
                        Repeat::Many
                    } else if next < n && text[next] == 0x2b {
                        Repeat::AtLeastOnce
                    } else if next < n && text[next] == 0x3f {
                        Repeat::Optional
                    } else {
                        Repeat::Once
                    };
                    let after = match repeat {
                        Repeat::Once => next,
                        _ => next + 1,
                    };
                    elements.push(Element { atom, repeat });
                    i = after;
                },
            }
        }
    }
    if elements.len() == 0 {
        None
    } else {
        Some(Regex { elements, ranges, from_start, to_end })
    }
}

} // verus!
