//! Rules and rule sets, and the segmentation algorithm.

use vstd::prelude::*;
use vstd::string::StringExecFns;
use vstd::string::StringSliceAdditionalSpecFns;
use vstd::utf8::encode_utf8;
use vstd::utf8::is_char_boundary;
use vstd::utf8::decode_utf8;
use crate::error::Error;
use crate::matcher::CompiledRegex;
use crate::matcher::capture_starts;
use crate::matcher::pattern_compiles;

verus! {

/// Newtype denoting a language: the name of a rule bucket.
#[derive(Debug)]
pub struct Language(pub String);

impl View for Language {
    type V = Seq<char>;

    open spec fn view(&self) -> Seq<char> {
        self.0@
    }
}

impl Language {
    /// An owned copy of this language name.
    pub fn duplicate(&self) -> (r: Language)
        ensures
            r == *self,
    {
        Language(self.0.clone())
    }
}

/// The mathematical content of a rule: the fused pattern text and the
/// break / no-break decision.
pub ghost struct RuleView {
    pub pattern: Seq<char>,
    pub do_break: bool,
}

/// The fused pattern of a rule: the before-break pattern (or nothing)
/// followed by the after-break pattern (or nothing) wrapped in a capture
/// group. The capture group's start offset marks the break candidate.
pub open spec fn fused_pattern(before: Option<Seq<char>>, after: Option<Seq<char>>) -> Seq<char> {
    (match before {
        Some(b) => b,
        None => Seq::empty(),
    }) + seq!['('] + (match after {
        Some(a) => a,
        None => Seq::empty(),
    }) + seq![')']
}

/// The view of an optional pattern argument.
pub open spec fn opt_str_view(s: Option<&str>) -> Option<Seq<char>> {
    match s {
        Some(x) => Some(x@),
        None => None,
    }
}

/// Whether a raw `(before, after)` pattern pair yields a rule: at least one
/// half must be present, and the fused pattern must compile.
pub open spec fn pair_compiles(before: Option<Seq<char>>, after: Option<Seq<char>>) -> bool {
    &&& (before is Some || after is Some)
    &&& pattern_compiles(fused_pattern(before, after))
}

/// A single rule: one compiled fused pattern (see [`fused_pattern`]) and a
/// break / no-break decision.
#[derive(Debug)]
pub struct Rule {
    matcher: CompiledRegex,
    do_break: bool,
}

impl View for Rule {
    type V = RuleView;

    closed spec fn view(&self) -> RuleView {
        RuleView { pattern: self.matcher.pattern(), do_break: self.do_break }
    }
}

impl Rule {
    /// Creates a new rule by fusing the two context patterns.
    ///
    /// Fails with a structural error if neither `before_break` nor
    /// `after_break` is given, and with a regex error if the fused pattern
    /// does not compile.
    pub fn new(before_break: Option<&str>, after_break: Option<&str>, do_break: bool) -> (r:
        Result<Rule, Error>)
        ensures
            r is Ok <==> pair_compiles(opt_str_view(before_break), opt_str_view(after_break)),
            r matches Ok(rule) ==> rule@ == (RuleView {
                pattern: fused_pattern(opt_str_view(before_break), opt_str_view(after_break)),
                do_break,
            }),
            r matches Err(e) ==> if before_break is None && after_break is None {
                e is SRXError
            } else {
                e is RegexError
            },
    {
        if before_break.is_none() && after_break.is_none() {
            return Err(
                Error::SRXError {
                    reason: String::from_str("either `before_break` or `after_break` must be set"),
                },
            );
        }
        let mut pattern = String::new();
        if let Some(b) = before_break {
            pattern.append(b);
        }
        pattern.append("(");
        if let Some(a) = after_break {
            pattern.append(a);
        }
        pattern.append(")");
        proof {
            reveal_strlit("(");
            reveal_strlit(")");
            assert(pattern@ =~= fused_pattern(opt_str_view(before_break), opt_str_view(
                after_break,
            )));
        }
        match CompiledRegex::compile(pattern.as_str()) {
            Ok(matcher) => Ok(Rule { matcher, do_break }),
            Err(detail) => Err(Error::RegexError(detail)),
        }
    }

    /// All byte offsets in the text at which this rule matches: the start
    /// offsets of its capture group, one per non-overlapping match.
    pub fn match_indices(&self, text: &str) -> (r: Vec<usize>)
        ensures
            r@.len() == capture_starts(self@.pattern, text@).len(),
            forall|i: int|
                0 <= i < r@.len() ==> r@[i] as int == capture_starts(self@.pattern, text@)[i],
    {
        self.matcher.capture_group_starts(text)
    }

    /// Whether this rule breaks or prevents breaking.
    pub fn do_break(&self) -> (r: bool)
        ensures
            r == self@.do_break,
    {
        self.do_break
    }

    /// An owned copy of this rule.
    pub fn duplicate(&self) -> (r: Rule)
        ensures
            r@ == self@,
    {
        Rule { matcher: self.matcher.duplicate(), do_break: self.do_break }
    }
}

/// An ordered set of rules for one rule bucket (or a cascaded union of
/// buckets). Order encodes priority: the first rule to claim a byte offset
/// decides it, and later rules cannot override the decision.
#[derive(Debug)]
pub struct Rules {
    rules: Vec<Rule>,
}

impl View for Rules {
    type V = Seq<RuleView>;

    closed spec fn view(&self) -> Seq<RuleView> {
        self.rules@.map_values(|r: Rule| r@)
    }
}

impl Default for Rules {
    /// An empty rule set.
    fn default() -> (r: Rules)
        ensures
            r@ =~= Seq::<RuleView>::empty(),
    {
        Rules { rules: Vec::new() }
    }
}

impl Rules {
    /// A rule set holding the given rules, in the given order.
    pub fn new(rules: Vec<Rule>) -> (r: Rules)
        ensures
            r@ == rules@.map_values(|x: Rule| x@),
    {
        Rules { rules }
    }

    /// Whether this rule set holds no rules.
    pub fn is_empty(&self) -> (r: bool)
        ensures
            r == (self@.len() == 0),
    {
        self.rules.is_empty()
    }

    /// The number of rules in this rule set.
    pub fn len(&self) -> (r: usize)
        ensures
            r == self@.len(),
    {
        self.rules.len()
    }
}

// ---------------------------------------------------------------------------
// The mathematical model of segmentation.
//
// Offsets are byte offsets into the UTF-8 encoding of the text, as the
// pattern matcher reports them.
// ---------------------------------------------------------------------------
/// The byte model of a text.
pub open spec fn text_bytes(text: Seq<char>) -> Seq<u8> {
    encode_utf8(text)
}

/// Whether a single rule claims byte offset `b` of the text.
pub open spec fn rule_claims(r: RuleView, text: Seq<char>, b: int) -> bool {
    capture_starts(r.pattern, text).contains(b)
}

/// The tri-state outcome at byte offset `b`: the decision of the first rule
/// in the set that claims `b`, if any.
pub open spec fn decision_at(rules: Seq<RuleView>, text: Seq<char>, b: int) -> Option<bool>
    decreases rules.len(),
{
    if rules.len() == 0 {
        None
    } else if rule_claims(rules[0], text, b) {
        Some(rules[0].do_break)
    } else {
        decision_at(rules.drop_first(), text, b)
    }
}

/// A byte offset at which the walk cuts the text: inside the text, on a
/// character boundary, and decided "break".
pub open spec fn is_break_offset(rules: Seq<RuleView>, text: Seq<char>, b: int) -> bool {
    &&& 0 <= b < text_bytes(text).len()
    &&& is_char_boundary(text_bytes(text), b)
    &&& decision_at(rules, text, b) == Some(true)
}

/// The break offsets below `n`, in increasing order.
pub open spec fn breaks_before(rules: Seq<RuleView>, text: Seq<char>, n: int) -> Seq<int>
    decreases n,
{
    if n <= 0 {
        Seq::empty()
    } else if is_break_offset(rules, text, n - 1) {
        breaks_before(rules, text, n - 1).push(n - 1)
    } else {
        breaks_before(rules, text, n - 1)
    }
}

/// The segment boundaries of a text: offset 0, every break offset, and the
/// text's byte length. Segment `i` spans bounds `i` to `i + 1`; a break
/// decided at offset 0 yields an empty first segment.
pub open spec fn segment_bounds(rules: Seq<RuleView>, text: Seq<char>) -> Seq<int> {
    seq![0int] + breaks_before(rules, text, text_bytes(text).len() as int) + seq![
        text_bytes(text).len() as int,
    ]
}

/// How many segments the text is split into: zero for an empty text, one
/// more than the number of break offsets otherwise.
pub open spec fn segment_count(rules: Seq<RuleView>, text: Seq<char>) -> int {
    if text.len() == 0 {
        0
    } else {
        segment_bounds(rules, text).len() - 1
    }
}

/// The characters of segment `i`.
pub open spec fn segment_chars(rules: Seq<RuleView>, text: Seq<char>, i: int) -> Seq<char> {
    decode_utf8(
        text_bytes(text).subrange(
            segment_bounds(rules, text)[i],
            segment_bounds(rules, text)[i + 1],
        ),
    )
}

// ---------------------------------------------------------------------------
// Lemmas about the model.
// ---------------------------------------------------------------------------
/// Appending a rule at the end never changes an outcome an earlier rule
/// already decided; it only decides offsets that were still undecided.
pub proof fn lemma_decision_at_push(s: Seq<RuleView>, r: RuleView, text: Seq<char>, b: int)
    ensures
        decision_at(s.push(r), text, b) == (match decision_at(s, text, b) {
            Some(d) => Some(d),
            None => if rule_claims(r, text, b) {
                Some(r.do_break)
            } else {
                None
            },
        }),
    decreases s.len(),
{
    if s.len() == 0 {
        assert(s.push(r)[0] == r);
        assert(s.push(r).drop_first() =~= s);
    } else {
        assert(s.push(r)[0] == s[0]);
        assert(s.push(r).drop_first() =~= s.drop_first().push(r));
        lemma_decision_at_push(s.drop_first(), r, text, b);
    }
}

/// The break offsets below `n` are exactly the offsets in `[0, n)` that
/// satisfy [`is_break_offset`], listed in strictly increasing order.
pub proof fn lemma_breaks_before_facts(rules: Seq<RuleView>, text: Seq<char>, n: int)
    ensures
        forall|i: int|
            0 <= i < breaks_before(rules, text, n).len() ==> (0 <= #[trigger] breaks_before(
                rules,
                text,
                n,
            )[i] < n && is_break_offset(rules, text, breaks_before(rules, text, n)[i])),
        forall|i: int, j: int|
            0 <= i < j < breaks_before(rules, text, n).len() ==> breaks_before(rules, text, n)[i]
                < breaks_before(rules, text, n)[j],
        forall|b: int|
            0 <= b < n && is_break_offset(rules, text, b) ==> breaks_before(
                rules,
                text,
                n,
            ).contains(b),
    decreases (if n <= 0 {
        0int
    } else {
        n
    }),
{
    if n <= 0 {
    } else {
        lemma_breaks_before_facts(rules, text, n - 1);
        if is_break_offset(rules, text, n - 1) {
            assert forall|b: int|
                0 <= b < n && is_break_offset(rules, text, b) implies breaks_before(
                rules,
                text,
                n,
            ).contains(b) by {
                if b < n - 1 {
                    let k = choose|k: int|
                        0 <= k < breaks_before(rules, text, n - 1).len() && #[trigger] breaks_before(
                            rules,
                            text,
                            n - 1,
                        )[k] == b;
                    assert(breaks_before(rules, text, n)[k] == b);
                } else {
                    assert(breaks_before(rules, text, n).last() == b);
                }
            }
        } else {
            assert forall|b: int|
                0 <= b < n && is_break_offset(rules, text, b) implies breaks_before(
                rules,
                text,
                n,
            ).contains(b) by {
                assert(b != n - 1);
                assert(breaks_before(rules, text, n - 1).contains(b));
            }
        }
    }
}

/// A text and its byte model are empty together, and a character takes at
/// least one byte.
pub proof fn lemma_text_bytes_len(text: Seq<char>)
    ensures
        text_bytes(text).len() >= text.len(),
        (text_bytes(text).len() == 0 <==> text.len() == 0),
    decreases text.len(),
{
    if text.len() == 0 {
    } else {
        lemma_text_bytes_len(text.drop_first());
    }
}

/// Every segment boundary lies on a character boundary of the text, and the
/// boundaries are ordered.
pub proof fn lemma_segment_bounds_facts(rules: Seq<RuleView>, text: Seq<char>)
    ensures
        segment_bounds(rules, text).len() >= 2,
        segment_bounds(rules, text).first() == 0,
        segment_bounds(rules, text).last() == text_bytes(text).len() as int,
        forall|i: int|
            0 <= i < segment_bounds(rules, text).len() ==> (0 <= #[trigger] segment_bounds(
                rules,
                text,
            )[i] <= text_bytes(text).len() && is_char_boundary(
                text_bytes(text),
                segment_bounds(rules, text)[i],
            )),
        forall|i: int, j: int|
            0 <= i < j < segment_bounds(rules, text).len() ==> segment_bounds(rules, text)[i]
                <= segment_bounds(rules, text)[j],
{
    let tb = text_bytes(text);
    let n = tb.len() as int;
    let brs = breaks_before(rules, text, n);
    lemma_breaks_before_facts(rules, text, n);
    vstd::utf8::encode_utf8_valid_utf8(text);
    vstd::utf8::is_char_boundary_start_end_of_seq(tb);
    assert forall|i: int|
        0 <= i < segment_bounds(rules, text).len() implies (0 <= #[trigger] segment_bounds(
        rules,
        text,
    )[i] <= n && is_char_boundary(tb, segment_bounds(rules, text)[i])) by {
        if i == 0 {
            assert(segment_bounds(rules, text)[i] == 0);
        } else if i == segment_bounds(rules, text).len() - 1 {
            assert(segment_bounds(rules, text)[i] == n);
        } else {
            assert(segment_bounds(rules, text)[i] == brs[i - 1]);
        }
    }
    assert forall|i: int, j: int|
        0 <= i < j < segment_bounds(rules, text).len() implies segment_bounds(rules, text)[i]
        <= segment_bounds(rules, text)[j] by {
        let s = segment_bounds(rules, text);
        if i == 0 {
            assert(s[i] == 0);
        } else if j == s.len() - 1 {
            assert(s[i] <= n);
        } else {
            assert(s[i] == brs[i - 1] && s[j] == brs[j - 1]);
        }
    }
}

/// The concatenation of the character views of a sequence of string slices.
pub open spec fn concat_views(s: Seq<&str>) -> Seq<char>
    decreases s.len(),
{
    if s.len() == 0 {
        Seq::empty()
    } else {
        concat_views(s.drop_last()) + s.last()@
    }
}

/// The concatenation of the first `k` segments' characters.
pub open spec fn chars_up_to(rules: Seq<RuleView>, text: Seq<char>, k: int) -> Seq<char>
    decreases k,
{
    if k <= 0 {
        Seq::empty()
    } else {
        chars_up_to(rules, text, k - 1) + segment_chars(rules, text, k - 1)
    }
}

/// A segment boundary of the whole text is a character boundary of any
/// prefix of the byte model that reaches up to it.
proof fn lemma_boundary_in_prefix(text: Seq<char>, p: int, q: int)
    requires
        0 <= p <= q <= text_bytes(text).len(),
        is_char_boundary(text_bytes(text), p),
        is_char_boundary(text_bytes(text), q),
    ensures
        vstd::utf8::valid_utf8(text_bytes(text).subrange(0, q)),
        is_char_boundary(text_bytes(text).subrange(0, q), p),
{
    let tb = text_bytes(text);
    vstd::utf8::encode_utf8_valid_utf8(text);
    vstd::utf8::valid_utf8_split(tb, q);
    let head = tb.subrange(0, q);
    if p == q {
        vstd::utf8::is_char_boundary_start_end_of_seq(head);
    } else if p == 0 {
        vstd::utf8::is_char_boundary_start_end_of_seq(head);
    } else {
        vstd::utf8::is_char_boundary_iff_not_is_continuation_byte(tb, p);
        assert(head[p] == tb[p]);
        vstd::utf8::is_char_boundary_iff_not_is_continuation_byte(head, p);
    }
}

/// The first `k` segments' characters decode the bytes up to boundary `k`.
proof fn lemma_chars_up_to_decodes(rules: Seq<RuleView>, text: Seq<char>, k: int)
    requires
        0 <= k < segment_bounds(rules, text).len(),
    ensures
        chars_up_to(rules, text, k) == decode_utf8(
            text_bytes(text).subrange(0, segment_bounds(rules, text)[k]),
        ),
    decreases k,
{
    let tb = text_bytes(text);
    let bnds = segment_bounds(rules, text);
    lemma_segment_bounds_facts(rules, text);
    if k == 0 {
        assert(bnds[0] == 0);
        assert(tb.subrange(0, 0) =~= Seq::<u8>::empty());
        assert(decode_utf8(Seq::<u8>::empty()) =~= Seq::<char>::empty());
    } else {
        lemma_chars_up_to_decodes(rules, text, k - 1);
        let p = bnds[k - 1];
        let q = bnds[k];
        lemma_boundary_in_prefix(text, p, q);
        let head = tb.subrange(0, q);
        vstd::utf8::decode_utf8_split(head, p);
        assert(head.subrange(0, p) =~= tb.subrange(0, p));
        assert(head.subrange(p, head.len() as int) =~= tb.subrange(p, q));
    }
}

/// Lossless partition: for every text and every rule set, the segments'
/// characters concatenate to exactly the text.
pub proof fn lemma_split_lossless(rules: Seq<RuleView>, text: Seq<char>)
    ensures
        chars_up_to(rules, text, segment_count(rules, text)) == text,
{
    if text.len() == 0 {
        assert(chars_up_to(rules, text, 0) =~= text);
    } else {
        let tb = text_bytes(text);
        let bnds = segment_bounds(rules, text);
        let k = segment_count(rules, text);
        lemma_segment_bounds_facts(rules, text);
        lemma_chars_up_to_decodes(rules, text, k);
        assert(bnds[k] == tb.len() as int);
        assert(tb.subrange(0, tb.len() as int) =~= tb);
        vstd::utf8::encode_utf8_decode_utf8(text);
    }
}

/// A sequence of string slices that matches the segments pointwise
/// concatenates like the segments do.
proof fn lemma_concat_views_pointwise(s: Seq<&str>, rules: Seq<RuleView>, text: Seq<char>, k: int)
    requires
        0 <= k == s.len(),
        forall|i: int| 0 <= i < k ==> (#[trigger] s[i])@ == segment_chars(rules, text, i),
    ensures
        concat_views(s) == chars_up_to(rules, text, k),
    decreases k,
{
    if k == 0 {
    } else {
        assert(forall|i: int| 0 <= i < k - 1 ==> #[trigger] s.drop_last()[i] == s[i]);
        lemma_concat_views_pointwise(s.drop_last(), rules, text, k - 1);
    }
}

/// The first rule that claims an offset decides it.
pub proof fn lemma_first_claim_wins(rules: Seq<RuleView>, text: Seq<char>, k: int, off: int)
    requires
        0 <= k < rules.len(),
        rule_claims(rules[k], text, off),
        forall|j: int| 0 <= j < k ==> !rule_claims(rules[j], text, off),
    ensures
        decision_at(rules, text, off) == Some(rules[k].do_break),
    decreases k,
{
    if k == 0 {
    } else {
        assert(!rule_claims(rules[0], text, off));
        assert(forall|j: int|
            0 <= j < k - 1 ==> !rule_claims(#[trigger] rules.drop_first()[j], text, off));
        lemma_first_claim_wins(rules.drop_first(), text, k - 1, off);
    }
}

/// Priority law: when rule `a` precedes rule `b`, both claim the same
/// offset, and no rule before `a` claims it, the outcome at that offset is
/// rule `a`'s decision — rule `b` never overrides it, even when the two
/// disagree.
pub proof fn lemma_earlier_rule_wins(
    rules: Seq<RuleView>,
    text: Seq<char>,
    a: int,
    b: int,
    off: int,
)
    requires
        0 <= a < b < rules.len(),
        rule_claims(rules[a], text, off),
        rule_claims(rules[b], text, off),
        forall|j: int| 0 <= j < a ==> !rule_claims(rules[j], text, off),
    ensures
        decision_at(rules, text, off) == Some(rules[a].do_break),
{
    lemma_first_claim_wins(rules, text, a, off);
}

/// An offset some rule claims is decided by its first claimant.
proof fn lemma_exists_first_claimant(rules: Seq<RuleView>, text: Seq<char>, a: int, off: int)
    requires
        0 <= a < rules.len(),
        rule_claims(rules[a], text, off),
    ensures
        exists|k: int|
            0 <= k <= a && rule_claims(#[trigger] rules[k], text, off) && decision_at(
                rules,
                text,
                off,
            ) == Some(rules[k].do_break),
    decreases a,
{
    if forall|j: int| 0 <= j < a ==> !rule_claims(#[trigger] rules[j], text, off) {
        lemma_first_claim_wins(rules, text, a, off);
        assert(rule_claims(rules[a], text, off) && decision_at(rules, text, off) == Some(
            rules[a].do_break,
        ));
    } else {
        let j = choose|j: int| 0 <= j < a && rule_claims(#[trigger] rules[j], text, off);
        lemma_exists_first_claimant(rules, text, j, off);
    }
}

/// Priority law, general form: when rule `a` precedes rule `b` in the set
/// and both claim the same offset, the outcome at that offset is the
/// decision of a rule standing at or before `a` — never one that rule `b`
/// contributed.
pub proof fn lemma_priority_order(rules: Seq<RuleView>, text: Seq<char>, a: int, b: int, off: int)
    requires
        0 <= a < b < rules.len(),
        rule_claims(rules[a], text, off),
        rule_claims(rules[b], text, off),
    ensures
        exists|k: int|
            0 <= k <= a && rule_claims(#[trigger] rules[k], text, off) && decision_at(
                rules,
                text,
                off,
            ) == Some(rules[k].do_break),
{
    lemma_exists_first_claimant(rules, text, a, off);
}

/// Without rules there are no break offsets.
proof fn lemma_no_rules_no_breaks(text: Seq<char>, n: int)
    ensures
        breaks_before(Seq::<RuleView>::empty(), text, n) =~= Seq::<int>::empty(),
    decreases (if n <= 0 {
        0int
    } else {
        n
    }),
{
    if n <= 0 {
    } else {
        lemma_no_rules_no_breaks(text, n - 1);
    }
}

/// An empty rule set decides nothing, so a nonempty text comes back as one
/// single segment: the text itself.
pub proof fn lemma_no_rules_one_segment(text: Seq<char>)
    requires
        text.len() > 0,
    ensures
        segment_count(Seq::<RuleView>::empty(), text) == 1,
        segment_chars(Seq::<RuleView>::empty(), text, 0) == text,
{
    let rules = Seq::<RuleView>::empty();
    let tb = text_bytes(text);
    lemma_no_rules_no_breaks(text, tb.len() as int);
    assert(segment_bounds(rules, text) =~= seq![0int, tb.len() as int]);
    assert(tb.subrange(0, tb.len() as int) =~= tb);
    vstd::utf8::encode_utf8_decode_utf8(text);
}

// ---------------------------------------------------------------------------
// The segmentation algorithm.
// ---------------------------------------------------------------------------
/// Outcome recorded for one byte offset while the rules run.
#[derive(PartialEq, Eq, Structural, Clone, Copy, Debug)]
enum Outcome {
    Undecided,
    NoBreak,
    Break,
}

/// The tri-state outcome that encodes a decision.
spec fn outcome_of(d: Option<bool>) -> Outcome {
    match d {
        None => Outcome::Undecided,
        Some(false) => Outcome::NoBreak,
        Some(true) => Outcome::Break,
    }
}

/// The outcome at offset `b` when the first `k` rules have run completely
/// and of rule `k` the match offsets in `seen` have been applied.
spec fn partial_decision(
    rules: Seq<RuleView>,
    k: int,
    seen: Seq<int>,
    text: Seq<char>,
    b: int,
) -> Option<bool> {
    match decision_at(rules.take(k), text, b) {
        Some(d) => Some(d),
        None => if seen.contains(b) {
            Some(rules[k].do_break)
        } else {
            None
        },
    }
}

impl Rules {
    /// The byte ranges of the text's segments: one consecutive range per
    /// segment, cut at every character boundary the rules decided "break",
    /// first rule to claim an offset winning. Range ends always lie on
    /// character boundaries, the ranges cover the text without gap, and an
    /// empty text yields no ranges.
    pub fn split_ranges(&self, text: &str) -> (r: Vec<core::ops::Range<usize>>)
        ensures
            r@.len() == segment_count(self@, text@),
            forall|i: int|
                0 <= i < r@.len() ==> ((#[trigger] r@[i]).start as int == segment_bounds(
                    self@,
                    text@,
                )[i] && r@[i].end as int == segment_bounds(self@, text@)[i + 1]),
            forall|i: int|
                0 <= i < r@.len() ==> (is_char_boundary(
                    text_bytes(text@),
                    (#[trigger] r@[i]).start as int,
                ) && is_char_boundary(text_bytes(text@), r@[i].end as int)),
            forall|i: int|
                0 <= i < r@.len() ==> ((#[trigger] r@[i]).start <= r@[i].end <= text_bytes(
                    text@,
                ).len()),
            text@.len() == 0 ==> r@.len() == 0,
    {
        let nbytes = text.as_bytes().len();
        proof {
            assert(text.spec_bytes() == text_bytes(text@));
        }
        // Step 1: the tri-state outcome array, one slot per byte offset.
        let mut mask: Vec<Outcome> = Vec::new();
        while mask.len() < nbytes
            invariant
                nbytes == text_bytes(text@).len(),
                mask@.len() <= nbytes,
                forall|b: int| 0 <= b < mask@.len() ==> mask@[b] == Outcome::Undecided,
            decreases nbytes - mask.len(),
        {
            mask.push(Outcome::Undecided);
        }
        // Step 2: run the rules in order; the first rule to claim an
        // undecided offset decides it.
        proof {
            assert(self@.take(0) =~= Seq::<RuleView>::empty());
        }
        let nrules = self.rules.len();
        let mut ri: usize = 0;
        while ri < nrules
            invariant
                nrules == self.rules@.len(),
                ri <= nrules,
                mask@.len() == nbytes,
                nbytes == text_bytes(text@).len(),
                forall|b: int|
                    0 <= b < nbytes ==> #[trigger] mask@[b] == outcome_of(
                        decision_at(self@.take(ri as int), text@, b),
                    ),
            decreases nrules - ri,
        {
            let rule = &self.rules[ri];
            proof {
                assert(rule@ == self@[ri as int]);
            }
            let idxs = rule.match_indices(text);
            let ghost cs = capture_starts(self@[ri as int].pattern, text@);
            proof {
                assert(cs.take(0) =~= Seq::<int>::empty());
            }
            let mut j: usize = 0;
            while j < idxs.len()
                invariant
                    nrules == self.rules@.len(),
                    ri < nrules,
                    mask@.len() == nbytes,
                    nbytes == text_bytes(text@).len(),
                    cs == capture_starts(self@[ri as int].pattern, text@),
                    idxs@.len() == cs.len(),
                    forall|i: int| 0 <= i < idxs@.len() ==> #[trigger] idxs@[i] as int == cs[i],
                    j <= idxs@.len(),
                    rule@ == self@[ri as int],
                    forall|b: int|
                        0 <= b < nbytes ==> #[trigger] mask@[b] == outcome_of(
                            partial_decision(self@, ri as int, cs.take(j as int), text@, b),
                        ),
                decreases idxs@.len() - j,
            {
                let bidx = idxs[j];
                let ghost old_mask = mask@;
                if bidx < nbytes {
                    if mask[bidx] == Outcome::Undecided {
                        let d = if rule.do_break() {
                            Outcome::Break
                        } else {
                            Outcome::NoBreak
                        };
                        mask.set(bidx, d);
                    }
                }
                proof {
                    assert(cs.take(j as int + 1) =~= cs.take(j as int).push(cs[j as int]));
                    assert forall|b: int| 0 <= b < nbytes implies #[trigger] mask@[b] == outcome_of(
                        partial_decision(self@, ri as int, cs.take(j as int + 1), text@, b),
                    ) by {
                        let t0 = cs.take(j as int);
                        let t1 = cs.take(j as int + 1);
                        assert(t1.contains(b) <==> (t0.contains(b) || cs[j as int] == b)) by {
                            if t1.contains(b) {
                                let k = choose|k: int| 0 <= k < t1.len() && #[trigger] t1[k] == b;
                                if k < j as int {
                                    assert(t0[k] == b);
                                }
                            }
                            if t0.contains(b) {
                                let k = choose|k: int| 0 <= k < t0.len() && #[trigger] t0[k] == b;
                                assert(t1[k] == b);
                            }
                            if cs[j as int] == b {
                                assert(t1[j as int] == b);
                            }
                        }
                        if b != bidx as int {
                            assert(mask@[b] == old_mask[b]);
                        }
                    }
                }
                j += 1;
            }
            proof {
                assert(cs.take(idxs@.len() as int) =~= cs);
                assert(self@.take(ri as int + 1) =~= self@.take(ri as int).push(self@[ri as int]));
                assert forall|b: int| 0 <= b < nbytes implies #[trigger] mask@[b] == outcome_of(
                    decision_at(self@.take(ri as int + 1), text@, b),
                ) by {
                    lemma_decision_at_push(self@.take(ri as int), self@[ri as int], text@, b);
                }
            }
            ri += 1;
        }
        proof {
            assert(self@.take(nrules as int) =~= self@);
        }
        // Step 3: walk the byte offsets; at every character boundary decided
        // "break", cut a segment.
        let mut ranges: Vec<core::ops::Range<usize>> = Vec::new();
        let mut prev: usize = 0;
        let mut b: usize = 0;
        while b < nbytes
            invariant
                mask@.len() == nbytes,
                nbytes == text_bytes(text@).len(),
                text.spec_bytes() == text_bytes(text@),
                forall|k: int|
                    0 <= k < nbytes ==> #[trigger] mask@[k] == outcome_of(
                        decision_at(self@, text@, k),
                    ),
                b <= nbytes,
                prev <= b,
                ({
                    let bnds = seq![0int] + breaks_before(self@, text@, b as int);
                    &&& ranges@.len() + 1 == bnds.len()
                    &&& prev as int == bnds.last()
                    &&& forall|i: int|
                        0 <= i < ranges@.len() ==> ((#[trigger] ranges@[i]).start as int == bnds[i]
                            && ranges@[i].end as int == bnds[i + 1])
                }),
            decreases nbytes - b,
        {
            let ghost old_bnds = seq![0int] + breaks_before(self@, text@, b as int);
            if text.is_char_boundary(b) && mask[b] == Outcome::Break {
                ranges.push(core::ops::Range { start: prev, end: b });
                prev = b;
            }
            proof {
                assert(is_break_offset(self@, text@, b as int) <==> (is_char_boundary(
                    text_bytes(text@),
                    b as int,
                ) && mask@[b as int] == Outcome::Break));
                if is_break_offset(self@, text@, b as int) {
                    assert(seq![0int] + breaks_before(self@, text@, b as int + 1) =~= old_bnds.push(
                        b as int,
                    ));
                } else {
                    assert(breaks_before(self@, text@, b as int + 1) == breaks_before(
                        self@,
                        text@,
                        b as int,
                    ));
                }
            }
            b += 1;
        }
        // Step 4: the remainder after the last cut, when the text is
        // nonempty, is the final segment.
        proof {
            lemma_breaks_before_facts(self@, text@, nbytes as int);
            lemma_text_bytes_len(text@);
        }
        if prev < nbytes {
            ranges.push(core::ops::Range { start: prev, end: nbytes });
        }
        proof {
            let bnds = segment_bounds(self@, text@);
            assert(bnds =~= (seq![0int] + breaks_before(self@, text@, nbytes as int)) + seq![
                nbytes as int,
            ]);
            lemma_segment_bounds_facts(self@, text@);
            if nbytes == 0 {
                assert(text@.len() == 0);
                assert(ranges@.len() == 0);
            } else {
                assert(text@.len() != 0);
                assert(ranges@.len() == bnds.len() - 1);
            }
        }
        ranges
    }

    /// Splits the text into its segments, as slices of the input. The
    /// slices, in order, concatenate to exactly the input text; an empty
    /// text yields no slices; a text no rule cuts comes back whole as the
    /// single slice.
    pub fn split<'a>(&self, text: &'a str) -> (r: Vec<&'a str>)
        ensures
            r@.len() == segment_count(self@, text@),
            forall|i: int| 0 <= i < r@.len() ==> (#[trigger] r@[i])@ == segment_chars(self@, text@, i),
            concat_views(r@) == text@,
    {
        let ranges = self.split_ranges(text);
        let mut out: Vec<&'a str> = Vec::new();
        let mut i: usize = 0;
        while i < ranges.len()
            invariant
                text.spec_bytes() == text_bytes(text@),
                ranges@.len() == segment_count(self@, text@),
                forall|k: int|
                    0 <= k < ranges@.len() ==> ((#[trigger] ranges@[k]).start as int
                        == segment_bounds(self@, text@)[k] && ranges@[k].end as int
                        == segment_bounds(self@, text@)[k + 1]),
                forall|k: int|
                    0 <= k < ranges@.len() ==> (is_char_boundary(
                        text_bytes(text@),
                        (#[trigger] ranges@[k]).start as int,
                    ) && is_char_boundary(text_bytes(text@), ranges@[k].end as int)),
                forall|k: int|
                    0 <= k < ranges@.len() ==> ((#[trigger] ranges@[k]).start <= ranges@[k].end
                        <= text_bytes(text@).len()),
                i <= ranges@.len(),
                out@.len() == i,
                forall|k: int|
                    0 <= k < i ==> (#[trigger] out@[k])@ == segment_chars(self@, text@, k),
            decreases ranges@.len() - i,
        {
            let start = ranges[i].start;
            let end = ranges[i].end;
            proof {
                lemma_boundary_in_prefix(text@, start as int, end as int);
            }
            let (head, _) = text.split_at(end);
            let (_, seg) = head.split_at(start);
            proof {
                let tb = text_bytes(text@);
                assert(head.spec_bytes() =~= tb.subrange(0, end as int));
                assert(seg.spec_bytes() =~= tb.subrange(start as int, end as int));
                vstd::utf8::encode_utf8_decode_utf8(seg@);
                assert(seg@ == segment_chars(self@, text@, i as int));
            }
            out.push(seg);
            i += 1;
        }
        proof {
            lemma_concat_views_pointwise(out@, self@, text@, out@.len() as int);
            lemma_split_lossless(self@, text@);
        }
        out
    }
}

} // verus!
