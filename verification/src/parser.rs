//! The grammar of filter-list lines.
//!
//! A line is a comment or blank (ignored), a cosmetic rule
//! (`domains##selector`, `domains#@#selector`, `domains##+js(payload)`), or a
//! network rule (`[@@]pattern[$options]`). Every line that holds `#` is read
//! as a cosmetic rule. A pattern between slashes is a regular expression;
//! options follow the last `$` unless the whole text stands between slashes.
//!
//! Refused are regular expressions outside the supported grammar, cosmetic
//! markers other than `##` and `#@#`, and options other than `important`,
//! `generichide`, `third-party`, `~third-party`, `first-party`, `domain=`
//! and the resource types.

use vstd::prelude::*;
use vstd::string::*;
use crate::pattern::Anchor;
use crate::regex::{parse_regex, regex_of};
use crate::request::{parse_resource_type, resource_type_of};
use crate::rule::{
    domain_views, CosmeticRule, CosmeticRuleView, DomainEntry, DomainEntryView, NetworkRule,
    NetworkRuleView, TypeEntry,
};
use crate::text::{
    after_last, bytes_eq, copy_bytes, find_after_last, find_byte, has_prefix, lower, next_index,
    split, split_spans, starts_with, to_lower, trim, trim_span,
};
use crate::url::{all_in_class, check_class, ByteClass};

verus! {

/// Why a line was refused.
#[derive(Clone, Copy, Debug, PartialEq, Eq, Structural)]
pub enum ParseError {
    /// The pattern is a regular expression outside the supported grammar.
    UnsupportedRegex,
    /// The pattern is empty or holds a blank or control byte.
    InvalidPattern,
    /// An option is unknown, or its value is malformed.
    InvalidOption,
    /// The domain list of a cosmetic rule is malformed.
    InvalidDomain,
    /// The selector or script payload is empty.
    InvalidSelector,
    /// A `#` that begins neither `##` nor `#@#`.
    UnsupportedMarker,
}

/// What one line of a filter list holds.
#[derive(Debug)]
pub enum ParsedLine {
    /// A blank line or a comment.
    Ignored,
    Network(NetworkRule),
    Cosmetic(CosmeticRule),
}

/// What one line holds.
pub enum ParsedLineView {
    Ignored,
    Network(NetworkRuleView),
    Cosmetic(CosmeticRuleView),
}

impl View for ParsedLine {
    type V = ParsedLineView;

    open spec fn view(&self) -> ParsedLineView {
        match self {
            ParsedLine::Ignored => ParsedLineView::Ignored,
            ParsedLine::Network(r) => ParsedLineView::Network(r@),
            ParsedLine::Cosmetic(r) => ParsedLineView::Cosmetic(r@),
        }
    }
}

/// The options of a network rule, gathered.
pub struct Options {
    pub important: bool,
    pub generichide: bool,
    pub third_party: bool,
    pub first_party: bool,
    pub types: Vec<TypeEntry>,
    pub domains: Vec<DomainEntry>,
}

/// What gathered options hold.
pub struct OptionsView {
    pub important: bool,
    pub generichide: bool,
    pub third_party: bool,
    pub first_party: bool,
    pub types: Seq<TypeEntry>,
    pub domains: Seq<DomainEntryView>,
}

impl View for Options {
    type V = OptionsView;

    open spec fn view(&self) -> OptionsView {
        OptionsView {
            important: self.important,
            generichide: self.generichide,
            third_party: self.third_party,
            first_party: self.first_party,
            types: self.types@,
            domains: domain_views(self.domains@),
        }
    }
}

/// A piece begins with `~`.
pub open spec fn is_negated(piece: Seq<u8>) -> bool {
    piece.len() > 0 && piece[0] == 0x7e
}

/// A piece without its leading `~`, if it has one.
pub open spec fn unsigned_part(piece: Seq<u8>) -> Seq<u8> {
    if is_negated(piece) {
        piece.subrange(1, piece.len() as int)
    } else {
        piece
    }
}

/// The domain entry that one piece of a domain list spells: a non-empty host
/// name, lower-cased, with `~` in front for an exclusion.
pub open spec fn domain_entry_of(piece: Seq<u8>) -> Option<DomainEntryView> {
    let name = unsigned_part(piece);
    if name.len() > 0 && all_in_class(name, 0, name.len() as int, ByteClass::Host) {
        Some(DomainEntryView { negated: is_negated(piece), name: lower(name) })
    } else {
        None
    }
}

/// The entries of a domain list whose pieces are separated by `sep`; `None`
/// when some piece spells no entry.
pub open spec fn domain_list_of(text: Seq<u8>, sep: u8) -> Option<Seq<DomainEntryView>> {
    let pieces = split(text, sep);
    if forall|k: int| 0 <= k < pieces.len() ==> domain_entry_of(#[trigger] pieces[k]) is Some {
        Some(Seq::new(pieces.len(), |k: int| domain_entry_of(pieces[k])->0))
    } else {
        None
    }
}

/// A rule without options.
pub open spec fn no_options() -> OptionsView {
    OptionsView {
        important: false,
        generichide: false,
        third_party: false,
        first_party: false,
        types: Seq::empty(),
        domains: Seq::empty(),
    }
}

/// The options gathered so far with one more option; `None` when the piece
/// spells no known option.
pub open spec fn with_option(acc: OptionsView, piece: Seq<u8>) -> Option<OptionsView> {
    if piece == "important".spec_bytes() {
        Some(OptionsView { important: true, ..acc })
    } else if piece == "generichide".spec_bytes() {
        Some(OptionsView { generichide: true, ..acc })
    } else if piece == "third-party".spec_bytes() {
        Some(OptionsView { third_party: true, ..acc })
    } else if piece == "~third-party".spec_bytes() || piece == "first-party".spec_bytes() {
        Some(OptionsView { first_party: true, ..acc })
    } else if starts_with(piece, "domain=".spec_bytes()) {
        match domain_list_of(
            piece.subrange("domain=".spec_bytes().len() as int, piece.len() as int),
            0x7c,
        ) {
            Some(d) => Some(OptionsView { domains: acc.domains + d, ..acc }),
            None => None,
        }
    } else {
        match resource_type_of(unsigned_part(piece)) {
            Some(t) => Some(
                OptionsView {
                    types: acc.types.push(TypeEntry { negated: is_negated(piece), rtype: t }),
                    ..acc
                },
            ),
            None => None,
        }
    }
}

/// The options that the first `n` pieces spell, taken in order.
pub open spec fn options_of(pieces: Seq<Seq<u8>>, n: int) -> Option<OptionsView>
    decreases n,
{
    if n <= 0 {
        Some(no_options())
    } else {
        match options_of(pieces, n - 1) {
            Some(acc) => with_option(acc, pieces[n - 1]),
            None => None,
        }
    }
}

/// The options spelled by a comma-separated option text.
pub open spec fn option_text_meaning(text: Seq<u8>) -> Option<OptionsView> {
    options_of(split(text, 0x2c), split(text, 0x2c).len() as int)
}

/// A pattern written between two slashes is a regular expression.
pub open spec fn is_regex(pattern: Seq<u8>) -> bool {
    pattern.len() >= 2 && pattern[0] == 0x2f && pattern.last() == 0x2f
}

/// The left anchor that a pattern begins with.
pub open spec fn left_anchor_of(pattern: Seq<u8>) -> Anchor {
    if pattern.len() >= 2 && pattern[0] == 0x7c && pattern[1] == 0x7c {
        Anchor::Host
    } else if pattern.len() >= 1 && pattern[0] == 0x7c {
        Anchor::Start
    } else {
        Anchor::Free
    }
}

/// A pattern without its left anchor.
pub open spec fn after_left_anchor(pattern: Seq<u8>) -> Seq<u8> {
    match left_anchor_of(pattern) {
        Anchor::Host => pattern.subrange(2, pattern.len() as int),
        Anchor::Start => pattern.subrange(1, pattern.len() as int),
        Anchor::Free => pattern,
    }
}

/// The pattern ends with `|` once its left anchor is taken off.
pub open spec fn right_anchor_of(pattern: Seq<u8>) -> bool {
    after_left_anchor(pattern).len() > 0 && after_left_anchor(pattern).last() == 0x7c
}

/// A pattern without its anchors.
pub open spec fn pattern_body_of(pattern: Seq<u8>) -> Seq<u8> {
    if right_anchor_of(pattern) {
        after_left_anchor(pattern).drop_last()
    } else {
        after_left_anchor(pattern)
    }
}

/// A rule text without a leading `@@`.
pub open spec fn after_exception_mark(t: Seq<u8>) -> Seq<u8> {
    if is_exception_text(t) {
        t.subrange(2, t.len() as int)
    } else {
        t
    }
}

/// A rule text begins with `@@`.
pub open spec fn is_exception_text(t: Seq<u8>) -> bool {
    t.len() >= 2 && t[0] == 0x40 && t[1] == 0x40
}

/// The pattern part of a rule text: what stands before the last `$`. A
/// text that is a regular expression as a whole is all pattern.
pub open spec fn pattern_part(rest: Seq<u8>) -> Seq<u8> {
    let cut = after_last(rest, rest.len() as int, 0x24);
    if cut > 0 && !is_regex(rest) {
        rest.subrange(0, cut - 1)
    } else {
        rest
    }
}

/// The options of a rule text: what the text after the last `$` spells. A
/// text that is a regular expression as a whole has no options.
pub open spec fn options_part(rest: Seq<u8>) -> Option<OptionsView> {
    let cut = after_last(rest, rest.len() as int, 0x24);
    if cut > 0 && !is_regex(rest) {
        option_text_meaning(rest.subrange(cut, rest.len() as int))
    } else {
        Some(no_options())
    }
}

/// What stands between the slashes of a regular expression.
pub open spec fn regex_text(pattern: Seq<u8>) -> Seq<u8> {
    pattern.subrange(1, pattern.len() - 1)
}

/// The network rule made of an exception mark, a regular expression and
/// gathered options. Such a rule has no anchors and an empty body.
pub open spec fn regex_rule_from(
    raw: Seq<u8>,
    exception: bool,
    text: Seq<u8>,
    options: Option<OptionsView>,
) -> Result<NetworkRuleView, ParseError> {
    match regex_of(text) {
        None => Err(ParseError::UnsupportedRegex),
        Some(re) => match options {
            None => Err(ParseError::InvalidOption),
            Some(o) => Ok(
                NetworkRuleView {
                    raw,
                    exception,
                    left: Anchor::Free,
                    right: false,
                    body: Seq::empty(),
                    regex: Some(re),
                    important: o.important,
                    generichide: o.generichide,
                    third_party: o.third_party,
                    first_party: o.first_party,
                    types: o.types,
                    domains: o.domains,
                },
            ),
        },
    }
}

/// The network rule made of an exception mark, a pattern with anchors and
/// gathered options.
pub open spec fn plain_rule_from(
    exception: bool,
    pattern: Seq<u8>,
    options: Option<OptionsView>,
) -> Result<NetworkRuleView, ParseError> {
    let body = pattern_body_of(pattern);
    if body.len() == 0 || !all_in_class(body, 0, body.len() as int, ByteClass::Visible) {
        Err(ParseError::InvalidPattern)
    } else {
        match options {
            None => Err(ParseError::InvalidOption),
            Some(o) => Ok(
                NetworkRuleView {
                    raw: pattern,
                    exception,
                    left: left_anchor_of(pattern),
                    right: right_anchor_of(pattern),
                    body: lower(body),
                    regex: None,
                    important: o.important,
                    generichide: o.generichide,
                    third_party: o.third_party,
                    first_party: o.first_party,
                    types: o.types,
                    domains: o.domains,
                },
            ),
        }
    }
}

/// The network rule made of an exception mark, a pattern and gathered
/// options. A bad regular expression or pattern body is refused first, then
/// bad options.
pub open spec fn network_rule_from(
    exception: bool,
    pattern: Seq<u8>,
    options: Option<OptionsView>,
) -> Result<NetworkRuleView, ParseError> {
    if is_regex(pattern) {
        regex_rule_from(pattern, exception, regex_text(pattern), options)
    } else {
        plain_rule_from(exception, pattern, options)
    }
}

/// The network rule that a trimmed line spells.
pub open spec fn network_rule_of(t: Seq<u8>) -> Result<NetworkRuleView, ParseError> {
    network_rule_from(
        is_exception_text(t),
        pattern_part(after_exception_mark(t)),
        options_part(after_exception_mark(t)),
    )
}

/// The view of options that may be missing.
pub open spec fn options_view(o: Option<Options>) -> Option<OptionsView> {
    match o {
        Some(x) => Some(x@),
        None => None,
    }
}

/// The text after a cosmetic marker is a script payload: `+js(` ... `)`.
pub open spec fn is_script_text(raw: Seq<u8>) -> bool {
    starts_with(raw, "+js(".spec_bytes()) && raw.len() > "+js(".spec_bytes().len() && raw.last()
        == 0x29
}

/// The selector, or the payload between the brackets of `+js(` ... `)`.
pub open spec fn cosmetic_body_of(raw: Seq<u8>) -> Seq<u8> {
    if is_script_text(raw) {
        raw.subrange("+js(".spec_bytes().len() as int, raw.len() - 1)
    } else {
        raw
    }
}

/// The cosmetic rule that a trimmed line spells, `at` being the index of its first `#`.
pub open spec fn cosmetic_rule_of(t: Seq<u8>, at: int) -> Result<CosmeticRuleView, ParseError> {
    let hide = at + 1 < t.len() && t[at + 1] == 0x23;
    let exception = at + 2 < t.len() && t[at + 1] == 0x40 && t[at + 2] == 0x23;
    if !hide && !exception {
        Err(ParseError::UnsupportedMarker)
    } else {
        let raw = t.subrange(if hide { at + 2 } else { at + 3 }, t.len() as int);
        let domains = if at == 0 {
            Some(Seq::<DomainEntryView>::empty())
        } else {
            domain_list_of(t.subrange(0, at), 0x2c)
        };
        match domains {
            None => Err(ParseError::InvalidDomain),
            Some(d) => if cosmetic_body_of(raw).len() == 0 {
                Err(ParseError::InvalidSelector)
            } else {
                Ok(
                    CosmeticRuleView {
                        exception: !hide,
                        script: is_script_text(raw),
                        domains: d,
                        body: cosmetic_body_of(raw),
                    },
                )
            },
        }
    }
}

/// What one line of a filter list means.
///
/// Blanks around the line are dropped. An empty line and a line that begins
/// with `!` or `[` are ignored. A line that holds `#` is a cosmetic rule;
/// every other line is a network rule.
pub open spec fn line_meaning(line: Seq<u8>) -> Result<ParsedLineView, ParseError> {
    let t = trim(line);
    if t.len() == 0 || t[0] == 0x21 || t[0] == 0x5b {
        Ok(ParsedLineView::Ignored)
    } else if next_index(t, 0, 0x23) < t.len() {
        match cosmetic_rule_of(t, next_index(t, 0, 0x23)) {
            Ok(r) => Ok(ParsedLineView::Cosmetic(r)),
            Err(e) => Err(e),
        }
    } else {
        match network_rule_of(t) {
            Ok(r) => Ok(ParsedLineView::Network(r)),
            Err(e) => Err(e),
        }
    }
}

/// Parses one piece of a domain list.
pub fn parse_domain_entry(piece: &[u8]) -> (r: Option<DomainEntry>)
    ensures
        match r {
            Some(e) => Some(e@) == domain_entry_of(piece@),
            None => domain_entry_of(piece@) is None,
        },
{
    let negated = piece.len() > 0 && piece[0] == 0x7e;
    let name = if negated {
        &piece[1..piece.len()]
    } else {
        piece
    };
    if name.len() > 0 && check_class(name, 0, name.len(), ByteClass::Host) {
        Some(DomainEntry { negated, name: to_lower(name) })
    } else {
        None
    }
}

/// Parses a domain list whose pieces are separated by `sep`.
pub fn parse_domain_list(text: &[u8], sep: u8) -> (r: Option<Vec<DomainEntry>>)
    ensures
        match r {
            Some(v) => Some(domain_views(v@)) == domain_list_of(text@, sep),
            None => domain_list_of(text@, sep) is None,
        },
{
    let spans = split_spans(text, sep);
    let ghost pieces = split(text@, sep);
    let mut out: Vec<DomainEntry> = Vec::new();
    let mut k: usize = 0;
    while k < spans.len()
        invariant
            k <= spans@.len(),
            spans@.len() == pieces.len(),
            pieces == split(text@, sep),
            forall|j: int|
                0 <= j < spans@.len() ==> (#[trigger] spans@[j]).0 <= spans@[j].1 <= text@.len()
                    && text@.subrange(spans@[j].0 as int, spans@[j].1 as int) == pieces[j],
            out@.len() == k,
            forall|j: int| 0 <= j < k ==> domain_entry_of(#[trigger] pieces[j]) == Some(out@[j]@),
        decreases spans@.len() - k,
    {
        let span = spans[k];
        match parse_domain_entry(&text[span.0..span.1]) {
            Some(entry) => {
                out.push(entry);
            },
            None => {
                assert(domain_entry_of(pieces[k as int]) is None);
                return None;
            },
        }
        k += 1;
    }
    assert(domain_views(out@) =~= Seq::new(pieces.len(), |j: int| domain_entry_of(pieces[j])->0));
    Some(out)
}

/// The options of a rule that names none.
pub fn empty_options() -> (r: Options)
    ensures
        r@ == no_options(),
{
    let r = Options {
        important: false,
        generichide: false,
        third_party: false,
        first_party: false,
        types: Vec::new(),
        domains: Vec::new(),
    };
    assert(r@.domains =~= Seq::<DomainEntryView>::empty());
    r
}

/// Adds the option that one piece spells to the options gathered so far.
pub fn add_option(acc: Options, piece: &[u8]) -> (r: Option<Options>)
    ensures
        match r {
            Some(o) => Some(o@) == with_option(acc@, piece@),
            None => with_option(acc@, piece@) is None,
        },
{
    let Options { important, generichide, third_party, first_party, types, domains } = acc;
    let keyword = "domain=".as_bytes();
    if bytes_eq(piece, "important".as_bytes()) {
        Some(Options { important: true, generichide, third_party, first_party, types, domains })
    } else if bytes_eq(piece, "generichide".as_bytes()) {
        Some(Options { important, generichide: true, third_party, first_party, types, domains })
    } else if bytes_eq(piece, "third-party".as_bytes()) {
        Some(Options { important, generichide, third_party: true, first_party, types, domains })
    } else if bytes_eq(piece, "~third-party".as_bytes()) || bytes_eq(
        piece,
        "first-party".as_bytes(),
    ) {
        Some(Options { important, generichide, third_party, first_party: true, types, domains })
    } else if has_prefix(piece, keyword) {
        match parse_domain_list(&piece[keyword.len()..piece.len()], 0x7c) {
            Some(more) => {
                let mut domains = domains;
                let mut more = more;
                let ghost before = domains@;
                let ghost added = more@;
                domains.append(&mut more);
                assert(domain_views(domains@) =~= domain_views(before) + domain_views(added));
                Some(Options { important, generichide, third_party, first_party, types, domains })
            },
            None => None,
        }
    } else {
        let negated = piece.len() > 0 && piece[0] == 0x7e;
        let name = if negated {
            &piece[1..piece.len()]
        } else {
            piece
        };
        match parse_resource_type(name) {
            Some(rtype) => {
                let mut types = types;
                types.push(TypeEntry { negated, rtype });
                Some(Options { important, generichide, third_party, first_party, types, domains })
            },
            None => None,
        }
    }
}

/// Parses the comma-separated options of a network rule.
pub fn parse_options(text: &[u8]) -> (r: Option<Options>)
    ensures
        match r {
            Some(o) => Some(o@) == option_text_meaning(text@),
            None => option_text_meaning(text@) is None,
        },
{
    let spans = split_spans(text, 0x2c);
    let ghost pieces = split(text@, 0x2c);
    let mut acc = empty_options();
    let mut k: usize = 0;
    while k < spans.len()
        invariant
            k <= spans@.len(),
            spans@.len() == pieces.len(),
            pieces == split(text@, 0x2c),
            forall|j: int|
                0 <= j < spans@.len() ==> (#[trigger] spans@[j]).0 <= spans@[j].1 <= text@.len()
                    && text@.subrange(spans@[j].0 as int, spans@[j].1 as int) == pieces[j],
            options_of(pieces, k as int) == Some(acc@),
        decreases spans@.len() - k,
    {
        let span = spans[k];
        match add_option(acc, &text[span.0..span.1]) {
            Some(next) => {
                acc = next;
            },
            None => {
                proof {
                    assert(options_of(pieces, k + 1) is None);
                    lemma_options_stay_none(pieces, k + 1, pieces.len() as int);
                }
                return None;
            },
        }
        k += 1;
    }
    Some(acc)
}

/// Gathered options mark a rule `important` exactly when one of the pieces
/// spells `important`.
pub proof fn lemma_important_option(pieces: Seq<Seq<u8>>, n: int)
    requires
        0 <= n <= pieces.len(),
        options_of(pieces, n) is Some,
    ensures
        options_of(pieces, n)->0.important <==> exists|k: int|
            0 <= k < n && #[trigger] pieces[k] == "important".spec_bytes(),
    decreases n,
{
    if n > 0 {
        lemma_important_option(pieces, n - 1);
        if pieces[n - 1] == "important".spec_bytes() {
            assert(options_of(pieces, n)->0.important);
        }
        if exists|k: int| 0 <= k < n && #[trigger] pieces[k] == "important".spec_bytes() {
            let k = choose|k: int| 0 <= k < n && #[trigger] pieces[k] == "important".spec_bytes();
            if k < n - 1 {
                assert(options_of(pieces, n - 1)->0.important);
            }
        }
    }
}

/// Once a piece spells no option, the whole list spells none.
pub proof fn lemma_options_stay_none(pieces: Seq<Seq<u8>>, n: int, m: int)
    requires
        0 <= n <= m,
        options_of(pieces, n) is None,
    ensures
        options_of(pieces, m) is None,
    decreases m - n,
{
    if n < m {
        lemma_options_stay_none(pieces, n, m - 1);
    }
}

/// Takes the anchors off a pattern: the left anchor, whether there is a
/// right anchor, and the range of the body.
pub fn split_anchors(pattern: &[u8]) -> (r: (Anchor, bool, usize, usize))
    ensures
        r.0 == left_anchor_of(pattern@),
        r.1 == right_anchor_of(pattern@),
        r.2 <= r.3 <= pattern@.len(),
        pattern@.subrange(r.2 as int, r.3 as int) == pattern_body_of(pattern@),
{
    let n = pattern.len();
    let (left, from) = if n >= 2 && pattern[0] == 0x7c && pattern[1] == 0x7c {
        (Anchor::Host, 2usize)
    } else if n >= 1 && pattern[0] == 0x7c {
        (Anchor::Start, 1usize)
    } else {
        (Anchor::Free, 0usize)
    };
    assert(pattern@.subrange(from as int, n as int) =~= after_left_anchor(pattern@));
    let right = n > from && pattern[n - 1] == 0x7c;
    let to = if right {
        n - 1
    } else {
        n
    };
    assert(pattern@.subrange(from as int, to as int) =~= pattern_body_of(pattern@));
    (left, right, from, to)
}

/// Cuts a rule text at its last `$`, unless the text is a regular
/// expression as a whole: the length of the pattern part, and the options
/// that follow it.
pub fn cut_options(rest: &[u8]) -> (r: (usize, Option<Options>))
    ensures
        r.0 <= rest@.len(),
        rest@.subrange(0, r.0 as int) == pattern_part(rest@),
        options_view(r.1) == options_part(rest@),
{
    let n = rest.len();
    let whole = n >= 2 && rest[0] == 0x2f && rest[n - 1] == 0x2f;
    let cut = find_after_last(rest, n, 0x24);
    if cut > 0 && !whole {
        let options = parse_options(&rest[cut..n]);
        (cut - 1, options)
    } else {
        assert(rest@.subrange(0, rest@.len() as int) =~= rest@);
        (rest.len(), Some(empty_options()))
    }
}

/// Builds a network rule from a regular expression, written as `raw`, and
/// gathered options.
pub fn build_regex_rule(
    raw: &[u8],
    exception: bool,
    text: &[u8],
    options: Option<Options>,
) -> (r: Result<NetworkRule, ParseError>)
    ensures
        match r {
            Ok(rule) => regex_rule_from(raw@, exception, text@, options_view(options)) == Ok::<
                NetworkRuleView,
                ParseError,
            >(rule@),
            Err(e) => regex_rule_from(raw@, exception, text@, options_view(options)) == Err::<
                NetworkRuleView,
                ParseError,
            >(e),
        },
{
    match parse_regex(text) {
        None => Err(ParseError::UnsupportedRegex),
        Some(re) => match options {
            None => Err(ParseError::InvalidOption),
            Some(o) => {
                let Options { important, generichide, third_party, first_party, types, domains } =
                    o;
                Ok(
                    NetworkRule {
                        raw: copy_bytes(raw),
                        exception,
                        left: Anchor::Free,
                        right: false,
                        body: Vec::new(),
                        regex: Some(re),
                        important,
                        generichide,
                        third_party,
                        first_party,
                        types,
                        domains,
                    },
                )
            },
        },
    }
}

/// Builds a network rule from a pattern with anchors and gathered options.
pub fn build_plain_rule(exception: bool, pattern: &[u8], options: Option<Options>) -> (r: Result<
    NetworkRule,
    ParseError,
>)
    ensures
        match r {
            Ok(rule) => plain_rule_from(exception, pattern@, options_view(options)) == Ok::<
                NetworkRuleView,
                ParseError,
            >(rule@),
            Err(e) => plain_rule_from(exception, pattern@, options_view(options)) == Err::<
                NetworkRuleView,
                ParseError,
            >(e),
        },
{
    let (left, right, from, to) = split_anchors(pattern);
    let body = &pattern[from..to];
    if body.len() == 0 || !check_class(body, 0, body.len(), ByteClass::Visible) {
        return Err(ParseError::InvalidPattern);
    }
    match options {
        None => Err(ParseError::InvalidOption),
        Some(o) => {
            let Options { important, generichide, third_party, first_party, types, domains } = o;
            Ok(
                NetworkRule {
                    raw: copy_bytes(pattern),
                    exception,
                    left,
                    right,
                    body: to_lower(body),
                    regex: None,
                    important,
                    generichide,
                    third_party,
                    first_party,
                    types,
                    domains,
                },
            )
        },
    }
}

/// Builds a network rule from its parts.
pub fn build_network_rule(exception: bool, pattern: &[u8], options: Option<Options>) -> (r: Result<
    NetworkRule,
    ParseError,
>)
    ensures
        match r {
            Ok(rule) => network_rule_from(exception, pattern@, options_view(options)) == Ok::<
                NetworkRuleView,
                ParseError,
            >(rule@),
            Err(e) => network_rule_from(exception, pattern@, options_view(options)) == Err::<
                NetworkRuleView,
                ParseError,
            >(e),
        },
{
    let n = pattern.len();
    if n >= 2 && pattern[0] == 0x2f && pattern[n - 1] == 0x2f {
        build_regex_rule(pattern, exception, &pattern[1..n - 1], options)
    } else {
        build_plain_rule(exception, pattern, options)
    }
}

/// Parses a trimmed line as a network rule.
pub fn parse_network_rule(t: &[u8]) -> (r: Result<NetworkRule, ParseError>)
    ensures
        match r {
            Ok(rule) => network_rule_of(t@) == Ok::<NetworkRuleView, ParseError>(rule@),
            Err(e) => network_rule_of(t@) == Err::<NetworkRuleView, ParseError>(e),
        },
{
    let exception = t.len() >= 2 && t[0] == 0x40 && t[1] == 0x40;
    let rest = if exception {
        &t[2..t.len()]
    } else {
        t
    };
    let (end, options) = cut_options(rest);
    build_network_rule(exception, &rest[0..end], options)
}

/// Parses a trimmed line as a cosmetic rule, `at` being the index of its first `#`.
pub fn parse_cosmetic_rule(t: &[u8], at: usize) -> (r: Result<CosmeticRule, ParseError>)
    ensures
        match r {
            Ok(rule) => cosmetic_rule_of(t@, at as int) == Ok::<CosmeticRuleView, ParseError>(rule@),
            Err(e) => cosmetic_rule_of(t@, at as int) == Err::<CosmeticRuleView, ParseError>(e),
        },
{
    let n = t.len();
    let hide = at < n && n - at > 1 && t[at + 1] == 0x23;
    let exception = at < n && n - at > 2 && t[at + 1] == 0x40 && t[at + 2] == 0x23;
    if !hide && !exception {
        return Err(ParseError::UnsupportedMarker);
    }
    let raw = if hide {
        &t[at + 2..n]
    } else {
        &t[at + 3..n]
    };
    let domains = if at == 0 {
        let none: Vec<DomainEntry> = Vec::new();
        assert(domain_views(none@) =~= Seq::<DomainEntryView>::empty());
        Some(none)
    } else {
        parse_domain_list(&t[0..at], 0x2c)
    };
    match domains {
        None => Err(ParseError::InvalidDomain),
        Some(d) => {
            let keyword = "+js(".as_bytes();
            let script = has_prefix(raw, keyword) && raw.len() > keyword.len() && raw[raw.len() - 1]
                == 0x29;
            let body = if script {
                &raw[keyword.len()..raw.len() - 1]
            } else {
                raw
            };
            if body.len() == 0 {
                Err(ParseError::InvalidSelector)
            } else {
                Ok(CosmeticRule { exception: !hide, script, domains: d, body: copy_bytes(body) })
            }
        },
    }
}

/// Parses one line of a filter list.
pub fn parse_line(line: &[u8]) -> (r: Result<ParsedLine, ParseError>)
    ensures
        match r {
            Ok(p) => line_meaning(line@) == Ok::<ParsedLineView, ParseError>(p@),
            Err(e) => line_meaning(line@) == Err::<ParsedLineView, ParseError>(e),
        },
{
    let span = trim_span(line);
    let t = &line[span.0..span.1];
    if t.len() == 0 || t[0] == 0x21 || t[0] == 0x5b {
        return Ok(ParsedLine::Ignored);
    }
    let at = find_byte(t, 0, 0x23);
    if at < t.len() {
        match parse_cosmetic_rule(t, at) {
            Ok(rule) => Ok(ParsedLine::Cosmetic(rule)),
            Err(e) => Err(e),
        }
    } else {
        match parse_network_rule(t) {
            Ok(rule) => Ok(ParsedLine::Network(rule)),
            Err(e) => Err(e),
        }
    }
}

} // verus!
