//! Rule-based sentence segmentation.
//!
//! Text is split into sentence-like segments according to an ordered table of
//! regex-based break / no-break rules, selected per language through a
//! cascading language map.

mod engine;
mod error;
mod matcher;
mod rules;
pub mod schema;
mod strutil;
mod utils;

pub use engine::{
    bucket_rules, compiled_rules, failed_count, find_bucket, group_names, last_group_rules,
    lemma_diagnostics_accounting, lemma_resolve_cascade_contribution, lemma_resolve_no_cascade,
    lemma_resolve_unmatched, lemma_rule_accounting, raw_rule_ok, raw_rule_view, resolve_rules,
    resolve_spec, srx_wf, table_ok, total_failed, MapEntryView, SrxView, SRX,
};
pub use error::Error;
pub use matcher::{capture_starts, pattern_compiles, pattern_matches, CompiledRegex};
pub use rules::{
    breaks_before, chars_up_to, concat_views, decision_at, fused_pattern, is_break_offset,
    lemma_breaks_before_facts, lemma_decision_at_push, lemma_earlier_rule_wins,
    lemma_first_claim_wins, lemma_no_rules_one_segment, lemma_priority_order,
    lemma_segment_bounds_facts, lemma_split_lossless, lemma_text_bytes_len, opt_str_view,
    pair_compiles, rule_claims, segment_bounds, segment_chars, segment_count, text_bytes, Language,
    Rule, RuleView, Rules,
};
pub use strutil::str_eq;
pub use utils::{end_anchored, end_regex, full_anchored, full_regex, start_anchored, start_regex};
