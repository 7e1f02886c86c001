//! The two end-to-end transformations on SRT text: the rule pipeline and the
//! bilingual merge.
use vstd::prelude::*;
use crate::config::{Config, ConfigView};
use crate::rules::{
    apply_combine_rules, apply_end_rules, combine_from, end_from, skip_filter, skip_filter_spec,
};
use crate::srt::{
    entry_views, format_srt_output, merge_bilingual, merge_from, parse_spec, parse_srt, render,
    EntryView,
};

verus! {

/// The rule passes in their fixed order: skip, combine, end phrases.
pub open spec fn rule_pipeline(es: Seq<EntryView>, c: ConfigView) -> Seq<EntryView> {
    end_from(combine_from(skip_filter_spec(es, c.skip_words), c.combine_phrases, 0), c.end_words, 0)
}

/// Applies the three rule passes to entries, in order.
pub fn apply_rules(entries: &[crate::srt::SrtEntry], config: &Config) -> (r: Vec<crate::srt::SrtEntry>)
    ensures
        entry_views(r@) == rule_pipeline(entry_views(entries@), config@),
{
    let mut es = skip_filter(entries, config.skip_words.as_slice());
    apply_combine_rules(&mut es, config.combine_phrases.as_slice());
    apply_end_rules(&mut es, config.end_words.as_slice());
    es
}

/// Parses SRT text, applies the rule passes, and writes the result as SRT
/// text numbered from 1.
pub fn process_srt(content: &str, config: &Config) -> (r: String)
    ensures
        r@ == render(rule_pipeline(parse_spec(content@), config@)),
{
    let entries = parse_srt(content);
    let es = apply_rules(entries.as_slice(), config);
    format_srt_output(es.as_slice())
}

/// The outcome of a bilingual merge: the SRT text and the entry counts
/// before and after.
pub struct MergeOutcome {
    pub output: String,
    pub count_before: usize,
    pub count_after: usize,
}

/// Parses SRT text, merges neighbours that share a timing line, and writes
/// the result as SRT text numbered from 1.
pub fn merge_srt(content: &str) -> (r: MergeOutcome)
    ensures
        r.output@ == render(merge_from(parse_spec(content@), 0)),
        r.count_before == parse_spec(content@).len(),
        r.count_after == merge_from(parse_spec(content@), 0).len(),
{
    let entries = parse_srt(content);
    let merged = merge_bilingual(entries.as_slice());
    MergeOutcome {
        output: format_srt_output(merged.as_slice()),
        count_before: entries.len(),
        count_after: merged.len(),
    }
}

} // verus!
