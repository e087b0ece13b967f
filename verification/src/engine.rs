//! The segmentation engine: all rule buckets, the language map, and the
//! per-language diagnostics, built once from a raw rule table.

use vstd::prelude::*;
use vstd::string::StringExecFns;
use crate::error::Error;
use crate::matcher::CompiledRegex;
use crate::matcher::pattern_compiles;
use crate::matcher::pattern_matches;
use crate::rules::{fused_pattern, opt_str_view, pair_compiles, Language, Rule, RuleView, Rules};
use crate::schema;
use crate::schema::{bool_token_value, is_bool_token, GroupView, RawRuleView};
use crate::utils::full_anchored;

verus! {

/// The mathematical content of a language-map entry: the anchored pattern
/// text and the bucket name it selects.
pub ghost struct MapEntryView {
    pub pattern: Seq<char>,
    pub language: Seq<char>,
}

/// The mathematical content of an engine.
pub ghost struct SrxView {
    pub cascade: bool,
    pub map: Seq<MapEntryView>,
    pub rules: Seq<(Seq<char>, Seq<RuleView>)>,
    pub errors: Seq<(Seq<char>, Seq<Seq<char>>)>,
}

/// An entry of the language map: a compiled language-code pattern and the
/// language it selects.
#[derive(Debug)]
struct LanguageRegex {
    matcher: CompiledRegex,
    language: Language,
}

/// The engine root. Aggregates the compiled rule buckets, the language map
/// and the cascade flag; immutable once built.
#[derive(Debug)]
pub struct SRX {
    cascade: bool,
    map: Vec<LanguageRegex>,
    rules: Vec<(Language, Vec<Rule>)>,
    errors: Vec<(Language, Vec<String>)>,
}

impl View for SRX {
    type V = SrxView;

    closed spec fn view(&self) -> SrxView {
        SrxView {
            cascade: self.cascade,
            map: self.map@.map_values(
                |e: LanguageRegex|
                    MapEntryView { pattern: e.matcher.pattern(), language: e.language@ },
            ),
            rules: self.rules@.map_values(
                |p: (Language, Vec<Rule>)| (p.0@, p.1@.map_values(|r: Rule| r@)),
            ),
            errors: self.errors@.map_values(
                |p: (Language, Vec<String>)| (p.0@, p.1@.map_values(|s: String| s@)),
            ),
        }
    }
}

/// Well-formedness of an engine: diagnostics and buckets carry the same
/// languages, each language holds one bucket, and every language the map
/// names has its bucket.
pub open spec fn srx_wf(v: SrxView) -> bool {
    &&& v.errors.len() == v.rules.len()
    &&& forall|i: int| 0 <= i < v.rules.len() ==> (#[trigger] v.errors[i]).0 == v.rules[i].0
    &&& forall|i: int, j: int|
        0 <= i < j < v.rules.len() ==> (#[trigger] v.rules[i]).0 != (#[trigger] v.rules[j]).0
    &&& forall|i: int|
        0 <= i < v.map.len() ==> find_bucket(v.rules, (#[trigger] v.map[i]).language) is Some
}

/// The bucket stored for a language, if any: buckets are searched in order,
/// though a well-formed engine holds at most one per language.
pub open spec fn find_bucket(rules: Seq<(Seq<char>, Seq<RuleView>)>, lang: Seq<char>) -> Option<
    Seq<RuleView>,
>
    decreases rules.len(),
{
    if rules.len() == 0 {
        None
    } else if rules[0].0 == lang {
        Some(rules[0].1)
    } else {
        find_bucket(rules.drop_first(), lang)
    }
}

/// The rules of a language's bucket; no bucket means no rules.
pub open spec fn bucket_rules(rules: Seq<(Seq<char>, Seq<RuleView>)>, lang: Seq<char>) -> Seq<
    RuleView,
> {
    match find_bucket(rules, lang) {
        Some(b) => b,
        None => Seq::empty(),
    }
}

/// Language resolution. Map entries are tried in order against the code.
/// With cascade off, the first matching entry's bucket is the result; with
/// cascade on, every matching entry appends its bucket, in map order. A code
/// no entry matches resolves to no rules.
pub open spec fn resolve_rules(
    cascade: bool,
    map: Seq<MapEntryView>,
    buckets: Seq<(Seq<char>, Seq<RuleView>)>,
    code: Seq<char>,
) -> Seq<RuleView>
    decreases map.len(),
{
    if map.len() == 0 {
        Seq::empty()
    } else if pattern_matches(map[0].pattern, code) {
        if cascade {
            bucket_rules(buckets, map[0].language) + resolve_rules(
                cascade,
                map.drop_first(),
                buckets,
                code,
            )
        } else {
            bucket_rules(buckets, map[0].language)
        }
    } else {
        resolve_rules(cascade, map.drop_first(), buckets, code)
    }
}

/// What `language_rules` returns for a code.
pub open spec fn resolve_spec(v: SrxView, code: Seq<char>) -> Seq<RuleView> {
    resolve_rules(v.cascade, v.map, v.rules, code)
}

/// A language that stands at some index of the bucket list has a bucket.
proof fn lemma_find_bucket_some(rules: Seq<(Seq<char>, Seq<RuleView>)>, lang: Seq<char>, k: int)
    requires
        0 <= k < rules.len(),
        rules[k].0 == lang,
    ensures
        find_bucket(rules, lang) is Some,
    decreases rules.len(),
{
    if rules[0].0 == lang {
    } else {
        assert(rules.drop_first()[k - 1] == rules[k]);
        lemma_find_bucket_some(rules.drop_first(), lang, k - 1);
    }
}

/// Cascade off: the result is exactly the bucket of the first map entry
/// whose pattern matches the code, in that bucket's own order.
pub proof fn lemma_resolve_no_cascade(v: SrxView, code: Seq<char>, k: int)
    requires
        !v.cascade,
        0 <= k < v.map.len(),
        pattern_matches(v.map[k].pattern, code),
        forall|j: int| 0 <= j < k ==> !pattern_matches((#[trigger] v.map[j]).pattern, code),
    ensures
        resolve_spec(v, code) == bucket_rules(v.rules, v.map[k].language),
{
    lemma_resolve_first_match(v.cascade, v.map, v.rules, code, k);
}

proof fn lemma_resolve_first_match(
    cascade: bool,
    map: Seq<MapEntryView>,
    buckets: Seq<(Seq<char>, Seq<RuleView>)>,
    code: Seq<char>,
    k: int,
)
    requires
        !cascade,
        0 <= k < map.len(),
        pattern_matches(map[k].pattern, code),
        forall|j: int| 0 <= j < k ==> !pattern_matches((#[trigger] map[j]).pattern, code),
    ensures
        resolve_rules(cascade, map, buckets, code) == bucket_rules(buckets, map[k].language),
    decreases k,
{
    if k == 0 {
    } else {
        assert(forall|j: int| 0 <= j < k - 1 ==> (#[trigger] map.drop_first()[j]) == map[j + 1]);
        lemma_resolve_first_match(cascade, map.drop_first(), buckets, code, k - 1);
    }
}

/// Cascade on: every matching map entry contributes its bucket exactly
/// where it stands, so the result is the concatenation, in map order, of
/// the matching entries' buckets. Split around entry `k`:
pub proof fn lemma_resolve_cascade_contribution(v: SrxView, code: Seq<char>, k: int)
    requires
        v.cascade,
        0 <= k < v.map.len(),
        pattern_matches(v.map[k].pattern, code),
    ensures
        resolve_spec(v, code) == resolve_rules(true, v.map.take(k), v.rules, code) + bucket_rules(
            v.rules,
            v.map[k].language,
        ) + resolve_rules(true, v.map.skip(k + 1), v.rules, code),
{
    lemma_resolve_cascade_split(v.map, v.rules, code, k);
    assert(v.map.skip(k)[0] == v.map[k]);
    assert(v.map.skip(k).drop_first() =~= v.map.skip(k + 1));
}

proof fn lemma_resolve_cascade_split(
    map: Seq<MapEntryView>,
    buckets: Seq<(Seq<char>, Seq<RuleView>)>,
    code: Seq<char>,
    k: int,
)
    requires
        0 <= k <= map.len(),
    ensures
        resolve_rules(true, map, buckets, code) == resolve_rules(true, map.take(k), buckets, code)
            + resolve_rules(true, map.skip(k), buckets, code),
    decreases k,
{
    if k == 0 {
        assert(map.take(0) =~= Seq::<MapEntryView>::empty());
        assert(map.skip(0) =~= map);
        assert(resolve_rules(true, map, buckets, code) =~= Seq::<RuleView>::empty()
            + resolve_rules(true, map, buckets, code));
    } else {
        assert(map.take(k)[0] == map[0]);
        assert(map.take(k).drop_first() =~= map.drop_first().take(k - 1));
        assert(map.skip(k) =~= map.drop_first().skip(k - 1));
        lemma_resolve_cascade_split(map.drop_first(), buckets, code, k - 1);
        if pattern_matches(map[0].pattern, code) {
            assert(resolve_rules(true, map, buckets, code) =~= (bucket_rules(
                buckets,
                map[0].language,
            ) + resolve_rules(true, map.drop_first().take(k - 1), buckets, code)) + resolve_rules(
                true,
                map.drop_first().skip(k - 1),
                buckets,
                code,
            ));
        }
    }
}

/// A code no map entry matches resolves to no rules at all.
pub proof fn lemma_resolve_unmatched(v: SrxView, code: Seq<char>)
    requires
        forall|i: int| 0 <= i < v.map.len() ==> !pattern_matches((#[trigger] v.map[i]).pattern, code),
    ensures
        resolve_spec(v, code) =~= Seq::<RuleView>::empty(),
{
    lemma_resolve_none_match(v.cascade, v.map, v.rules, code);
}

proof fn lemma_resolve_none_match(
    cascade: bool,
    map: Seq<MapEntryView>,
    buckets: Seq<(Seq<char>, Seq<RuleView>)>,
    code: Seq<char>,
)
    requires
        forall|i: int| 0 <= i < map.len() ==> !pattern_matches((#[trigger] map[i]).pattern, code),
    ensures
        resolve_rules(cascade, map, buckets, code) =~= Seq::<RuleView>::empty(),
    decreases map.len(),
{
    if map.len() == 0 {
    } else {
        assert(forall|i: int|
            0 <= i < map.len() - 1 ==> (#[trigger] map.drop_first()[i]) == map[i + 1]);
        lemma_resolve_none_match(cascade, map.drop_first(), buckets, code);
    }
}

// ---------------------------------------------------------------------------
// Engine construction from a raw rule table.
// ---------------------------------------------------------------------------
/// Whether a raw rule definition yields an active rule: at least one
/// context pattern given, and the fused pattern compiles.
pub open spec fn raw_rule_ok(r: RawRuleView) -> bool {
    pair_compiles(r.beforebreak, r.afterbreak)
}

/// The active rule a raw definition compiles to.
pub open spec fn raw_rule_view(r: RawRuleView) -> RuleView {
    RuleView {
        pattern: fused_pattern(r.beforebreak, r.afterbreak),
        do_break: bool_token_value(r.do_break),
    }
}

/// The active bucket of a group: the raw definitions that compile, in
/// declaration order.
pub open spec fn compiled_rules(rs: Seq<RawRuleView>) -> Seq<RuleView>
    decreases rs.len(),
{
    if rs.len() == 0 {
        Seq::empty()
    } else {
        compiled_rules(rs.drop_last()) + (if raw_rule_ok(rs.last()) {
            seq![raw_rule_view(rs.last())]
        } else {
            Seq::empty()
        })
    }
}

/// How many raw definitions of a group fail to compile.
pub open spec fn failed_count(rs: Seq<RawRuleView>) -> int
    decreases rs.len(),
{
    if rs.len() == 0 {
        0
    } else {
        failed_count(rs.drop_last()) + (if raw_rule_ok(rs.last()) {
            0int
        } else {
            1int
        })
    }
}

/// Diagnostics accounting: of `R` declared rule definitions, the failing
/// ones leave an active bucket of exactly `R` minus their number.
pub proof fn lemma_rule_accounting(rs: Seq<RawRuleView>)
    ensures
        compiled_rules(rs).len() + failed_count(rs) == rs.len(),
        failed_count(rs) >= 0,
    decreases rs.len(),
{
    if rs.len() == 0 {
    } else {
        lemma_rule_accounting(rs.drop_last());
    }
}

/// The bucket a language ends up with: the compiled rules of the last
/// group declared under that name.
pub open spec fn last_group_rules(groups: Seq<GroupView>, lang: Seq<char>) -> Seq<RuleView>
    decreases groups.len(),
{
    if groups.len() == 0 {
        Seq::empty()
    } else if groups.last().name == lang {
        compiled_rules(groups.last().rules)
    } else {
        last_group_rules(groups.drop_last(), lang)
    }
}

/// The number of failed raw definitions over every group of a language.
pub open spec fn total_failed(groups: Seq<GroupView>, lang: Seq<char>) -> int
    decreases groups.len(),
{
    if groups.len() == 0 {
        0
    } else {
        total_failed(groups.drop_last(), lang) + (if groups.last().name == lang {
            failed_count(groups.last().rules)
        } else {
            0
        })
    }
}

/// Diagnostics accounting for a language declared by exactly one group: its
/// bucket holds exactly the declared rules that compile, and together with
/// its diagnostics they account for every declared rule, one for one.
pub proof fn lemma_diagnostics_accounting(groups: Seq<GroupView>, g: int)
    requires
        0 <= g < groups.len(),
        forall|j: int|
            0 <= j < groups.len() && j != g ==> (#[trigger] groups[j]).name != groups[g].name,
    ensures
        last_group_rules(groups, groups[g].name) == compiled_rules(groups[g].rules),
        total_failed(groups, groups[g].name) == failed_count(groups[g].rules),
        compiled_rules(groups[g].rules).len() + failed_count(groups[g].rules)
            == groups[g].rules.len(),
    decreases groups.len(),
{
    lemma_rule_accounting(groups[g].rules);
    assert(forall|j: int|
        0 <= j < groups.len() - 1 ==> (#[trigger] groups.drop_last()[j]) == groups[j]);
    if g == groups.len() - 1 {
        assert(groups.last() == groups[g]);
        lemma_no_group_named(groups.drop_last(), groups[g].name);
    } else {
        assert(groups.last().name != groups[g].name);
        lemma_diagnostics_accounting(groups.drop_last(), g);
    }
}

/// The declared languages, in order of first declaration, each once.
pub open spec fn group_names(groups: Seq<GroupView>) -> Seq<Seq<char>>
    decreases groups.len(),
{
    if groups.len() == 0 {
        Seq::empty()
    } else {
        let prior = group_names(groups.drop_last());
        if prior.contains(groups.last().name) {
            prior
        } else {
            prior.push(groups.last().name)
        }
    }
}

/// A language is among the declared names exactly when some group declares
/// it.
pub proof fn lemma_name_present(groups: Seq<GroupView>, lang: Seq<char>)
    ensures
        group_names(groups).contains(lang) <==> exists|g: int|
            0 <= g < groups.len() && (#[trigger] groups[g]).name == lang,
    decreases groups.len(),
{
    if groups.len() == 0 {
    } else {
        let prior = group_names(groups.drop_last());
        lemma_name_present(groups.drop_last(), lang);
        assert(forall|g: int|
            0 <= g < groups.len() - 1 ==> (#[trigger] groups.drop_last()[g]) == groups[g]);
        if group_names(groups).contains(lang) {
            if prior.contains(groups.last().name) {
                assert(prior.contains(lang));
            } else {
                let w = choose|w: int|
                    0 <= w < group_names(groups).len() && #[trigger] group_names(groups)[w]
                        == lang;
                if w < prior.len() {
                    assert(prior[w] == lang);
                } else {
                    assert(groups.last().name == lang);
                    assert(groups[groups.len() - 1].name == lang);
                }
            }
        }
        if exists|g: int| 0 <= g < groups.len() && (#[trigger] groups[g]).name == lang {
            let g = choose|g: int| 0 <= g < groups.len() && (#[trigger] groups[g]).name == lang;
            if g < groups.len() - 1 {
                assert(groups.drop_last()[g].name == lang);
                assert(prior.contains(lang));
                let w = choose|w: int| 0 <= w < prior.len() && #[trigger] prior[w] == lang;
                assert(group_names(groups)[w] == lang);
            } else {
                if prior.contains(groups.last().name) {
                    assert(prior.contains(lang));
                    let w = choose|w: int| 0 <= w < prior.len() && #[trigger] prior[w] == lang;
                    assert(group_names(groups)[w] == lang);
                } else {
                    assert(group_names(groups).last() == lang);
                }
            }
        }
    }
}

/// A language no group declares has no failures and no rules.
proof fn lemma_no_group_named(groups: Seq<GroupView>, lang: Seq<char>)
    requires
        forall|g: int| 0 <= g < groups.len() ==> (#[trigger] groups[g]).name != lang,
    ensures
        total_failed(groups, lang) == 0,
        last_group_rules(groups, lang) =~= Seq::<RuleView>::empty(),
    decreases groups.len(),
{
    if groups.len() == 0 {
    } else {
        assert(forall|g: int|
            0 <= g < groups.len() - 1 ==> (#[trigger] groups.drop_last()[g]) == groups[g]);
        assert(groups.last() == groups[groups.len() - 1]);
        lemma_no_group_named(groups.drop_last(), lang);
    }
}

/// The declared names hold no repetition.
proof fn lemma_group_names_distinct(groups: Seq<GroupView>)
    ensures
        forall|i: int, j: int|
            0 <= i < j < group_names(groups).len() ==> group_names(groups)[i] != group_names(
                groups,
            )[j],
    decreases groups.len(),
{
    if groups.len() == 0 {
    } else {
        let prior = group_names(groups.drop_last());
        lemma_group_names_distinct(groups.drop_last());
        if !prior.contains(groups.last().name) {
            assert forall|i: int, j: int|
                0 <= i < j < group_names(groups).len() implies group_names(groups)[i]
                != group_names(groups)[j] by {
                if j == group_names(groups).len() - 1 {
                    assert(group_names(groups)[j] == groups.last().name);
                    if prior[i] == groups.last().name {
                        assert(prior.contains(groups.last().name));
                    }
                } else {
                    assert(group_names(groups)[i] == prior[i]);
                    assert(group_names(groups)[j] == prior[j]);
                }
            }
        }
    }
}

/// What engine construction demands of a table: a well-formed cascade
/// token, every map pattern compiling once anchored, every rule's break
/// token well-formed, and a declared bucket for every mapped language.
pub open spec fn table_ok(t: schema::TableView) -> bool {
    &&& is_bool_token(t.cascade)
    &&& (forall|i: int|
        0 <= i < t.maps.len() ==> pattern_compiles(full_anchored((#[trigger] t.maps[i]).pattern)))
    &&& (forall|g: int, k: int|
        #![trigger t.groups[g].rules[k]]
        (0 <= g < t.groups.len() && 0 <= k < t.groups[g].rules.len()) ==> is_bool_token(
            t.groups[g].rules[k].do_break,
        ))
    &&& (forall|i: int|
        0 <= i < t.maps.len() ==> group_names(t.groups).contains((#[trigger] t.maps[i]).name))
}

impl SRX {
    #[verifier::type_invariant]
    spec fn wf(self) -> bool {
        srx_wf(self.view())
    }

    /// The position of a language's bucket.
    fn bucket_index_of(&self, language: &Language) -> (r: usize)
        requires
            find_bucket(self@.rules, language@) is Some,
        ensures
            (r as int) < self@.rules.len(),
            self@.rules[r as int].0 == language@,
            find_bucket(self@.rules, language@) == Some(self@.rules[r as int].1),
    {
        let n = self.rules.len();
        let mut i: usize = 0;
        proof {
            assert(self@.rules.skip(0) =~= self@.rules);
        }
        while i < n
            invariant
                n == self.rules@.len(),
                i <= n,
                find_bucket(self@.rules, language@) is Some,
                find_bucket(self@.rules, language@) == find_bucket(
                    self@.rules.skip(i as int),
                    language@,
                ),
            decreases n - i,
        {
            proof {
                assert(self@.rules.skip(i as int)[0] == self@.rules[i as int]);
                assert(self@.rules.skip(i as int).drop_first() =~= self@.rules.skip(i as int + 1));
            }
            if self.rules[i].0.0 == language.0 {
                return i;
            }
            i += 1;
        }
        proof {
            assert(self@.rules.skip(n as int) =~= Seq::<(Seq<char>, Seq<RuleView>)>::empty());
            assert(false);
        }
        0
    }

    /// Gets the rules for a language code, trying the map entries in order:
    /// with cascade on, every entry whose pattern matches the code appends
    /// its bucket; with cascade off, the first matching entry's bucket alone
    /// is the result. The result should be cached: each call copies the
    /// rules afresh.
    pub fn language_rules(&self, lang_code: &str) -> (r: Rules)
        ensures
            r@ == resolve_spec(self@, lang_code@),
    {
        proof {
            use_type_invariant(self);
        }
        let mut out: Vec<Rule> = Vec::new();
        let n = self.map.len();
        let mut i: usize = 0;
        proof {
            assert(self@.map.skip(0) =~= self@.map);
            assert(out@.map_values(|x: Rule| x@) =~= Seq::<RuleView>::empty());
            assert(Seq::<RuleView>::empty() + resolve_spec(self@, lang_code@) =~= resolve_spec(
                self@,
                lang_code@,
            ));
        }
        while i < n
            invariant
                srx_wf(self@),
                n == self.map@.len(),
                i <= n,
                out@.map_values(|x: Rule| x@) + resolve_rules(
                    self@.cascade,
                    self@.map.skip(i as int),
                    self@.rules,
                    lang_code@,
                ) == resolve_spec(self@, lang_code@),
                !self@.cascade ==> out@.len() == 0,
            decreases n - i,
        {
            let ghost mview = self@.map;
            proof {
                assert(mview.skip(i as int)[0] == mview[i as int]);
                assert(mview.skip(i as int).drop_first() =~= mview.skip(i as int + 1));
            }
            let entry = &self.map[i];
            proof {
                assert(self@.map[i as int] == (MapEntryView {
                    pattern: entry.matcher.pattern(),
                    language: entry.language@,
                }));
            }
            if entry.matcher.is_match(lang_code) {
                let bi = self.bucket_index_of(&entry.language);
                let bucket = &self.rules[bi].1;
                let ghost before = out@;
                let ghost bview = self@.rules[bi as int].1;
                let m = bucket.len();
                let mut k: usize = 0;
                while k < m
                    invariant
                        m == bucket@.len(),
                        bview == bucket@.map_values(|r: Rule| r@),
                        k <= m,
                        out@.len() == before.len() + k,
                        forall|t: int| 0 <= t < before.len() ==> #[trigger] out@[t] == before[t],
                        forall|t: int|
                            0 <= t < k ==> (#[trigger] out@[before.len() + t])@ == bview[t],
                    decreases m - k,
                {
                    out.push(bucket[k].duplicate());
                    k += 1;
                }
                proof {
                    assert forall|t: int| 0 <= t < out@.len() implies (#[trigger] out@[t])@ == (
                    before.map_values(|x: Rule| x@) + bview)[t] by {
                        if t < before.len() {
                            assert(out@[t] == before[t]);
                        } else {
                            assert(out@[before.len() + (t - before.len())]@ == bview[t
                                - before.len()]);
                        }
                    }
                    assert(out@.map_values(|x: Rule| x@) =~= before.map_values(|x: Rule| x@)
                        + bview);
                    assert(bview == bucket_rules(self@.rules, entry.language@));
                }
                if !self.cascade {
                    proof {
                        assert(before.map_values(|x: Rule| x@) =~= Seq::<RuleView>::empty());
                        assert(Seq::<RuleView>::empty() + resolve_rules(
                            self@.cascade,
                            self@.map.skip(i as int),
                            self@.rules,
                            lang_code@,
                        ) =~= resolve_rules(
                            self@.cascade,
                            self@.map.skip(i as int),
                            self@.rules,
                            lang_code@,
                        ));
                        assert(Seq::<RuleView>::empty() + bview =~= bview);
                        assert(out@.map_values(|x: Rule| x@) =~= resolve_spec(self@, lang_code@));
                    }
                    return Rules::new(out);
                }
                proof {
                    let rest = resolve_rules(
                        self@.cascade,
                        self@.map.skip(i as int + 1),
                        self@.rules,
                        lang_code@,
                    );
                    assert((before.map_values(|x: Rule| x@) + bview) + rest =~= before.map_values(
                        |x: Rule| x@,
                    ) + (bview + rest));
                }
            }
            i += 1;
        }
        proof {
            assert(self@.map.skip(n as int) =~= Seq::<MapEntryView>::empty());
            assert(out@.map_values(|x: Rule| x@) =~= resolve_spec(self@, lang_code@));
        }
        Rules::new(out)
    }

    /// Builds an engine from a raw rule table.
    ///
    /// Construction fails on a malformed cascade token, on a language-map
    /// pattern that does not compile, on a malformed break token, and on a
    /// mapped language that no bucket declares — and succeeds otherwise. A
    /// rule definition that fails to compile is not fatal: it is dropped
    /// from its bucket and leaves one diagnostic entry for its language, so
    /// a declared bucket keeps exactly its compiling rules. A language
    /// declared more than once keeps the rules of its last declaration and
    /// accumulates the diagnostics of all of them.
    pub fn build(table: schema::SRX) -> (r: Result<SRX, Error>)
        ensures
            r is Ok <==> table_ok(table@),
            r matches Ok(srx) ==> ({
                &&& srx_wf(srx@)
                &&& srx@.cascade == bool_token_value(table@.cascade)
                &&& srx@.map.len() == table@.maps.len()
                &&& (forall|i: int|
                    0 <= i < table@.maps.len() ==> ((#[trigger] srx@.map[i]).pattern
                        == full_anchored(table@.maps[i].pattern) && srx@.map[i].language
                        == table@.maps[i].name))
                &&& srx@.rules.len() == group_names(table@.groups).len()
                &&& (forall|i: int|
                    0 <= i < srx@.rules.len() ==> ((#[trigger] srx@.rules[i]).0 == group_names(
                        table@.groups,
                    )[i] && srx@.rules[i].1 == last_group_rules(
                        table@.groups,
                        group_names(table@.groups)[i],
                    )))
                &&& srx@.errors.len() == group_names(table@.groups).len()
                &&& (forall|i: int|
                    0 <= i < srx@.errors.len() ==> ((#[trigger] srx@.errors[i]).0 == group_names(
                        table@.groups,
                    )[i] && srx@.errors[i].1.len() == total_failed(
                        table@.groups,
                        group_names(table@.groups)[i],
                    )))
            }),
            r matches Err(e) ==> (e is RegexError <==> (is_bool_token(table@.cascade) && exists|
                i: int,
            |
                0 <= i < table@.maps.len() && !pattern_compiles(
                    full_anchored((#[trigger] table@.maps[i]).pattern),
                ))),
    {
        let cascade = match schema::string_to_bool(table.header.cascade.as_str()) {
            Ok(b) => b,
            Err(e) => {
                return Err(e);
            },
        };
        // The language map: every pattern must compile, anchored to the
        // whole code.
        let nm = table.body.maprules.maps.len();
        let mut map: Vec<LanguageRegex> = Vec::new();
        let mut i: usize = 0;
        while i < nm
            invariant
                cascade == bool_token_value(table@.cascade),
                is_bool_token(table@.cascade),
                nm == table@.maps.len(),
                i <= nm,
                map@.len() == i,
                forall|j: int|
                    0 <= j < i ==> ((#[trigger] map@[j]).matcher.pattern() == full_anchored(
                        table@.maps[j].pattern,
                    ) && map@[j].language@ == table@.maps[j].name),
                forall|j: int|
                    0 <= j < i ==> pattern_compiles(
                        full_anchored((#[trigger] table@.maps[j]).pattern),
                    ),
            decreases nm - i,
        {
            let entry = &table.body.maprules.maps[i];
            proof {
                assert(entry@ == table@.maps[i as int]);
            }
            match crate::utils::full_regex(entry.pattern.as_str()) {
                Ok(c) => {
                    map.push(LanguageRegex { matcher: c, language: Language(entry.name.clone()) });
                },
                Err(d) => {
                    return Err(Error::RegexError(d));
                },
            }
            i += 1;
        }
        // The buckets and the diagnostics, one entry per declared language.
        let ng = table.body.languagerules.rules.len();
        let mut buckets: Vec<(Language, Vec<Rule>)> = Vec::new();
        let mut errs: Vec<(Language, Vec<String>)> = Vec::new();
        let mut g: usize = 0;
        proof {
            assert(table@.groups.take(0) =~= Seq::<GroupView>::empty());
        }
        while g < ng
            invariant
                cascade == bool_token_value(table@.cascade),
                is_bool_token(table@.cascade),
                nm == table@.maps.len(),
                map@.len() == nm,
                forall|j: int|
                    0 <= j < nm ==> ((#[trigger] map@[j]).matcher.pattern() == full_anchored(
                        table@.maps[j].pattern,
                    ) && map@[j].language@ == table@.maps[j].name),
                forall|j: int|
                    0 <= j < nm ==> pattern_compiles(
                        full_anchored((#[trigger] table@.maps[j]).pattern),
                    ),
                ng == table@.groups.len(),
                g <= ng,
                errs@.len() == buckets@.len(),
                buckets@.len() == group_names(table@.groups.take(g as int)).len(),
                forall|j: int|
                    0 <= j < buckets@.len() ==> (#[trigger] buckets@[j]).0@ == group_names(
                        table@.groups.take(g as int),
                    )[j],
                forall|j: int|
                    0 <= j < errs@.len() ==> (#[trigger] errs@[j]).0@ == group_names(
                        table@.groups.take(g as int),
                    )[j],
                forall|j: int|
                    0 <= j < buckets@.len() ==> (#[trigger] buckets@[j]).1@.map_values(
                        |r: Rule| r@,
                    ) == last_group_rules(table@.groups.take(g as int), buckets@[j].0@),
                forall|j: int|
                    0 <= j < errs@.len() ==> (#[trigger] errs@[j]).1@.len() == total_failed(
                        table@.groups.take(g as int),
                        errs@[j].0@,
                    ),
                forall|gg: int, kk: int|
                    #![trigger table@.groups[gg].rules[kk]]
                    (0 <= gg < g && 0 <= kk < table@.groups[gg].rules.len()) ==> is_bool_token(
                        table@.groups[gg].rules[kk].do_break,
                    ),
            decreases ng - g,
        {
            proof {
                assert(table@.groups.len() == table.body.languagerules.rules@.len());
            }
            let group = &table.body.languagerules.rules[g];
            proof {
                assert(group@ == table@.groups[g as int]);
            }
            // Compile this group's rules; a failing rule is dropped and
            // leaves its reason.
            let nr = group.rules.len();
            let mut active: Vec<Rule> = Vec::new();
            let mut msgs: Vec<String> = Vec::new();
            let mut k: usize = 0;
            proof {
                assert(group@.rules.take(0) =~= Seq::<RawRuleView>::empty());
                assert(active@.map_values(|r: Rule| r@) =~= Seq::<RuleView>::empty());
            }
            while k < nr
                invariant
                    nm == table@.maps.len(),
                    forall|j: int|
                        0 <= j < nm ==> pattern_compiles(
                            full_anchored((#[trigger] table@.maps[j]).pattern),
                        ),
                    is_bool_token(table@.cascade),
                    ng == table@.groups.len(),
                    g < ng,
                    group@ == table@.groups[g as int],
                    nr == group@.rules.len(),
                    k <= nr,
                    active@.map_values(|r: Rule| r@) == compiled_rules(
                        group@.rules.take(k as int),
                    ),
                    msgs@.len() == failed_count(group@.rules.take(k as int)),
                    forall|t: int|
                        0 <= t < k ==> is_bool_token((#[trigger] group@.rules[t]).do_break),
                decreases nr - k,
            {
                let raw = &group.rules[k];
                proof {
                    assert(raw@ == group@.rules[k as int]);
                }
                let db = match schema::string_to_bool(raw.do_break.as_str()) {
                    Ok(b) => b,
                    Err(e) => {
                        return Err(e);
                    },
                };
                let before: Option<&str> = match &raw.beforebreak {
                    Some(s) => Some(s.as_str()),
                    None => None,
                };
                let after: Option<&str> = match &raw.afterbreak {
                    Some(s) => Some(s.as_str()),
                    None => None,
                };
                proof {
                    assert(opt_str_view(before) == raw@.beforebreak);
                    assert(opt_str_view(after) == raw@.afterbreak);
                }
                let ghost old_active = active@;
                match Rule::new(before, after, db) {
                    Ok(rule) => {
                        active.push(rule);
                    },
                    Err(e) => {
                        msgs.push(e.message());
                    },
                }
                proof {
                    let pre = group@.rules.take(k as int);
                    let post = group@.rules.take(k as int + 1);
                    assert(post.drop_last() =~= pre);
                    assert(post.last() == group@.rules[k as int]);
                    if raw_rule_ok(group@.rules[k as int]) {
                        assert(active@ == old_active.push(active@.last()));
                        assert(active@.last()@ == raw_rule_view(group@.rules[k as int]));
                        assert forall|t: int|
                            0 <= t < active@.len() implies (#[trigger] active@[t])@
                            == compiled_rules(post)[t] by {
                            if t < old_active.len() {
                                assert(active@[t] == old_active[t]);
                            }
                        }
                        assert(active@.map_values(|r: Rule| r@) =~= compiled_rules(post));
                    } else {
                        assert(active@.map_values(|r: Rule| r@) =~= compiled_rules(post));
                    }
                }
                k += 1;
            }
            proof {
                assert(group@.rules.take(nr as int) =~= group@.rules);
            }
            // Install the bucket: a fresh language gets a new entry; a
            // repeated declaration replaces its bucket and extends its
            // diagnostics.
            let nb = buckets.len();
            let mut found: bool = false;
            let mut fidx: usize = 0;
            let mut j: usize = 0;
            while j < nb
                invariant
                    nb == buckets@.len(),
                    j <= nb,
                    group@ == table@.groups[g as int],
                    found ==> (fidx < nb && (#[trigger] buckets@[fidx as int]).0@ == group@.name),
                    !found ==> (forall|t: int|
                        0 <= t < j ==> (#[trigger] buckets@[t]).0@ != group@.name),
                decreases nb - j,
            {
                if !found && buckets[j].0.0 == group.name {
                    found = true;
                    fidx = j;
                }
                j += 1;
            }
            let ghost pre_groups = table@.groups.take(g as int);
            let ghost post_groups = table@.groups.take(g as int + 1);
            let ghost cur = table@.groups[g as int];
            let ghost names_pre = group_names(pre_groups);
            proof {
                assert(post_groups.drop_last() =~= pre_groups);
                assert(post_groups.last() == cur);
                lemma_group_names_distinct(pre_groups);
                if found {
                    assert(names_pre.contains(cur.name));
                } else {
                    if names_pre.contains(cur.name) {
                        let w = choose|w: int|
                            0 <= w < names_pre.len() && #[trigger] names_pre[w] == cur.name;
                        assert(buckets@[w].0@ == cur.name);
                        assert(false);
                    }
                }
            }
            if found {
                let ghost old_buckets = buckets@;
                let ghost old_errs = errs@;
                let mut combined: Vec<String> = Vec::new();
                let ne = errs[fidx].1.len();
                let mut t: usize = 0;
                while t < ne
                    invariant
                        fidx < errs@.len(),
                        ne == errs@[fidx as int].1@.len(),
                        t <= ne,
                        combined@.len() == t,
                        forall|u: int|
                            0 <= u < t ==> #[trigger] combined@[u] == errs@[fidx as int].1@[u],
                    decreases ne - t,
                {
                    let s = errs[fidx].1[t].clone();
                    combined.push(s);
                    t += 1;
                }
                combined.append(&mut msgs);
                errs.set(fidx, (Language(group.name.clone()), combined));
                buckets.set(fidx, (Language(group.name.clone()), active));
                proof {
                    assert(group_names(post_groups) == names_pre);
                    assert forall|jj: int|
                        0 <= jj < buckets@.len() implies ((#[trigger] buckets@[jj]).0@
                        == names_pre[jj] && buckets@[jj].1@.map_values(|r: Rule| r@)
                        == last_group_rules(post_groups, buckets@[jj].0@)) by {
                        if jj == fidx {
                            assert(buckets@[jj].0@ == cur.name);
                        } else {
                            assert(buckets@[jj] == old_buckets[jj]);
                            assert(names_pre[jj] != names_pre[fidx as int]);
                            assert(buckets@[jj].0@ != cur.name);
                        }
                    }
                    assert forall|jj: int|
                        0 <= jj < errs@.len() implies ((#[trigger] errs@[jj]).0@ == names_pre[jj]
                        && errs@[jj].1@.len() == total_failed(post_groups, errs@[jj].0@)) by {
                        if jj == fidx {
                            assert(errs@[jj].0@ == cur.name);
                            assert(errs@[jj].1@.len() == old_errs[jj].1@.len() + failed_count(
                                cur.rules,
                            ));
                        } else {
                            assert(errs@[jj] == old_errs[jj]);
                            assert(errs@[jj].0@ != cur.name);
                        }
                    }
                }
            } else {
                buckets.push((Language(group.name.clone()), active));
                errs.push((Language(group.name.clone()), msgs));
                proof {
                    assert(group_names(post_groups) == names_pre.push(cur.name));
                    lemma_name_present(pre_groups, cur.name);
                    assert(forall|gg: int|
                        0 <= gg < pre_groups.len() ==> (#[trigger] pre_groups[gg]).name
                            != cur.name);
                    lemma_no_group_named(pre_groups, cur.name);
                    assert forall|jj: int|
                        0 <= jj < buckets@.len() implies ((#[trigger] buckets@[jj]).0@
                        == group_names(post_groups)[jj] && buckets@[jj].1@.map_values(|r: Rule| r@)
                        == last_group_rules(post_groups, buckets@[jj].0@)) by {
                        if jj < buckets@.len() - 1 {
                            assert(buckets@[jj].0@ == names_pre[jj]);
                            assert(buckets@[jj].0@ != cur.name) by {
                                if names_pre[jj] == cur.name {
                                    assert(names_pre.contains(cur.name));
                                }
                            }
                        } else {
                            assert(buckets@[jj].0@ == cur.name);
                        }
                    }
                    assert forall|jj: int|
                        0 <= jj < errs@.len() implies ((#[trigger] errs@[jj]).0@ == group_names(
                        post_groups,
                    )[jj] && errs@[jj].1@.len() == total_failed(post_groups, errs@[jj].0@)) by {
                        if jj < errs@.len() - 1 {
                            assert(errs@[jj].0@ == names_pre[jj]);
                            assert(errs@[jj].0@ != cur.name) by {
                                if names_pre[jj] == cur.name {
                                    assert(names_pre.contains(cur.name));
                                }
                            }
                        } else {
                            assert(errs@[jj].0@ == cur.name);
                        }
                    }
                }
            }
            g += 1;
        }
        proof {
            assert(table@.groups.take(ng as int) =~= table@.groups);
        }
        // Cross-check: every language the map names must have a bucket.
        let mut i2: usize = 0;
        while i2 < nm
            invariant
                cascade == bool_token_value(table@.cascade),
                is_bool_token(table@.cascade),
                nm == table@.maps.len(),
                map@.len() == nm,
                i2 <= nm,
                forall|j: int|
                    0 <= j < nm ==> ((#[trigger] map@[j]).matcher.pattern() == full_anchored(
                        table@.maps[j].pattern,
                    ) && map@[j].language@ == table@.maps[j].name),
                forall|j: int|
                    0 <= j < nm ==> pattern_compiles(
                        full_anchored((#[trigger] table@.maps[j]).pattern),
                    ),
                errs@.len() == buckets@.len(),
                buckets@.len() == group_names(table@.groups).len(),
                forall|j: int|
                    0 <= j < buckets@.len() ==> (#[trigger] buckets@[j]).0@ == group_names(
                        table@.groups,
                    )[j],
                forall|j: int|
                    0 <= j < errs@.len() ==> (#[trigger] errs@[j]).0@ == group_names(
                        table@.groups,
                    )[j],
                forall|j: int|
                    0 <= j < buckets@.len() ==> (#[trigger] buckets@[j]).1@.map_values(
                        |r: Rule| r@,
                    ) == last_group_rules(table@.groups, buckets@[j].0@),
                forall|j: int|
                    0 <= j < errs@.len() ==> (#[trigger] errs@[j]).1@.len() == total_failed(
                        table@.groups,
                        errs@[j].0@,
                    ),
                forall|gg: int, kk: int|
                    #![trigger table@.groups[gg].rules[kk]]
                    (0 <= gg < table@.groups.len() && 0 <= kk < table@.groups[gg].rules.len())
                        ==> is_bool_token(table@.groups[gg].rules[kk].do_break),
                forall|j: int|
                    0 <= j < i2 ==> group_names(table@.groups).contains(
                        (#[trigger] table@.maps[j]).name,
                    ),
            decreases nm - i2,
        {
            let nb = buckets.len();
            let mut found2: bool = false;
            let mut j: usize = 0;
            while j < nb
                invariant
                    nb == buckets@.len(),
                    j <= nb,
                    i2 < nm,
                    map@.len() == nm,
                    map@[i2 as int].language@ == table@.maps[i2 as int].name,
                    buckets@.len() == group_names(table@.groups).len(),
                    forall|jj: int|
                        0 <= jj < buckets@.len() ==> (#[trigger] buckets@[jj]).0@ == group_names(
                            table@.groups,
                        )[jj],
                    found2 ==> group_names(table@.groups).contains(table@.maps[i2 as int].name),
                    !found2 ==> (forall|t: int|
                        0 <= t < j ==> (#[trigger] buckets@[t]).0@ != table@.maps[i2 as int].name),
                decreases nb - j,
            {
                if !found2 && buckets[j].0.0 == map[i2].language.0 {
                    found2 = true;
                    proof {
                        assert(group_names(table@.groups)[j as int] == table@.maps[
                        i2 as int].name);
                    }
                }
                j += 1;
            }
            if !found2 {
                proof {
                    let names = group_names(table@.groups);
                    if names.contains(table@.maps[i2 as int].name) {
                        let w = choose|w: int|
                            0 <= w < names.len() && #[trigger] names[w] == table@.maps[
                            i2 as int].name;
                        assert(buckets@[w].0@ == table@.maps[i2 as int].name);
                        assert(false);
                    }
                }
                let mut reason = String::from_str(
                    "<languagerules> must have an entry for each language in <languagemap>. Did not find entry for ",
                );
                reason.append(map[i2].language.0.as_str());
                return Err(Error::SRXError { reason });
            }
            i2 += 1;
        }
        // Assemble the engine.
        let ghost vv = (SrxView {
            cascade,
            map: map@.map_values(
                |e: LanguageRegex|
                    MapEntryView { pattern: e.matcher.pattern(), language: e.language@ },
            ),
            rules: buckets@.map_values(
                |p: (Language, Vec<Rule>)| (p.0@, p.1@.map_values(|r: Rule| r@)),
            ),
            errors: errs@.map_values(
                |p: (Language, Vec<String>)| (p.0@, p.1@.map_values(|s: String| s@)),
            ),
        });
        proof {
            lemma_group_names_distinct(table@.groups);
            assert(vv.rules.len() == buckets@.len());
            assert(vv.errors.len() == errs@.len());
            assert forall|ii: int| 0 <= ii < vv.rules.len() implies (#[trigger] vv.errors[ii]).0
                == vv.rules[ii].0 by {
                assert(vv.rules[ii].0 == buckets@[ii].0@);
                assert(vv.errors[ii].0 == errs@[ii].0@);
            }
            assert forall|ii: int, jj: int| 0 <= ii < jj < vv.rules.len() implies (
            #[trigger] vv.rules[ii]).0 != (#[trigger] vv.rules[jj]).0 by {
                assert(vv.rules[ii].0 == group_names(table@.groups)[ii]);
                assert(vv.rules[jj].0 == group_names(table@.groups)[jj]);
            }
            assert forall|ii: int| 0 <= ii < vv.map.len() implies find_bucket(
                vv.rules,
                (#[trigger] vv.map[ii]).language,
            ) is Some by {
                let names = group_names(table@.groups);
                assert(names.contains(table@.maps[ii].name));
                let w = choose|w: int| 0 <= w < names.len() && #[trigger] names[w] == table@.maps[
                ii].name;
                assert(vv.rules[w].0 == vv.map[ii].language);
                lemma_find_bucket_some(vv.rules, vv.map[ii].language, w);
            }
            assert(srx_wf(vv));
        }
        let srx = SRX { cascade, map, rules: buckets, errors: errs };
        proof {
            assert(srx@ == vv);
        }
        Ok(srx)
    }

    /// The per-language diagnostics: for each declared language, the
    /// reasons of its rule definitions that failed to compile, in order.
    pub fn errors(&self) -> (r: &Vec<(Language, Vec<String>)>)
        ensures
            r@.len() == self@.errors.len(),
            forall|i: int|
                0 <= i < r@.len() ==> ((#[trigger] r@[i]).0@ == self@.errors[i].0 && r@[i].1@
                    .map_values(|s: String| s@) == self@.errors[i].1),
    {
        &self.errors
    }
}

} // verus!
