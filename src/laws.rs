//! Properties that hold of the passes for every input, proved from their
//! definitions.
use vstd::prelude::*;
use crate::config::ConfigView;
use crate::pipeline::rule_pipeline;
use crate::rules::{
    any_combine_rule, combine_from, end_from, end_step, first_end_from, skip_filter_spec,
    skip_match, words,
};
use crate::round_trip::{blank_at, lemma_blocks_shift, lemma_blocks_tail};
use crate::srt::{
    blocks_from, decimal, entries_of_blocks, entry_of_block, lines, numbered_blocks, parse_spec,
    parse_u32_spec, render, split_blocks, EntryView,
};

verus! {

/// The skip filter keeps exactly the entries that hold no skip word: each
/// kept entry holds none, each entry that holds none is kept, and filtering
/// two runs one after the other is filtering each, so the order is kept.
pub proof fn lemma_skip_filter_law(es: Seq<EntryView>, more: Seq<EntryView>, skip: Seq<Seq<char>>)
    ensures
        forall|k: int|
            0 <= k < skip_filter_spec(es, skip).len() ==> !skip_match(
                #[trigger] skip_filter_spec(es, skip)[k].text,
                skip,
            ),
        forall|e: EntryView|
            #[trigger] skip_filter_spec(es, skip).contains(e) <==> (es.contains(e) && !skip_match(
                e.text,
                skip,
            )),
        skip_filter_spec(es + more, skip) == skip_filter_spec(es, skip) + skip_filter_spec(more, skip),
{
    let pred = |e: EntryView| !skip_match(e.text, skip);
    es.filter_lemma(pred);
    assert forall|e: EntryView| #[trigger] skip_filter_spec(es, skip).contains(e) <==> (es.contains(e) && !skip_match(e.text, skip)) by {
        if skip_filter_spec(es, skip).contains(e) {
            es.lemma_filter_contains_rev(pred, e);
        }
        if es.contains(e) && !skip_match(e.text, skip) {
            let k = choose|k: int| 0 <= k < es.len() && es[k] == e;
            assert(pred(es[k]));
        }
    }
    Seq::filter_distributes_over_add(es, more, pred);
}

/// The output numbers entries 1, 2, ... by position: block `k` opens with the
/// numeral of `k + 1`, and entries that differ only in their stored numbers
/// are written alike.
pub proof fn lemma_render_numbers_by_position(a: Seq<EntryView>, b: Seq<EntryView>)
    requires
        a.len() == b.len(),
        forall|k: int| 0 <= k < a.len() ==> (#[trigger] a[k]).timestamp == b[k].timestamp && a[k].text == b[k].text,
    ensures
        render(a) == render(b),
        forall|k: int| 0 <= k < a.len() ==> (#[trigger] numbered_blocks(a)[k]).subrange(0, decimal((k + 1) as nat).len() as int)
            == decimal((k + 1) as nat),
{
    assert(numbered_blocks(a) =~= numbered_blocks(b));
    assert forall|k: int| 0 <= k < a.len() implies (#[trigger] numbered_blocks(a)[k]).subrange(0, decimal((k + 1) as nat).len() as int)
        == decimal((k + 1) as nat) by {
        let d = decimal((k + 1) as nat);
        assert(numbered_blocks(a)[k].subrange(0, d.len() as int) =~= d);
    }
}

/// No rule of `c` fits the entries: no entry holds a skip word, no combine
/// rule fits two neighbours, and no end phrase closes an entry followed by
/// another.
pub open spec fn no_rule_fits(es: Seq<EntryView>, c: ConfigView) -> bool {
    &&& forall|k: int| 0 <= k < es.len() ==> !skip_match(#[trigger] es[k].text, c.skip_words)
    &&& forall|k: int|
        0 <= k < es.len() - 1 ==> !any_combine_rule(#[trigger] es[k].text, es[k + 1].text, c.combine_phrases)
    &&& forall|k: int|
        0 <= k < es.len() - 1 ==> first_end_from(words(#[trigger] es[k].text), c.end_words, 0) is None
}

proof fn lemma_filter_keeps_all(es: Seq<EntryView>, skip: Seq<Seq<char>>)
    requires
        forall|k: int| 0 <= k < es.len() ==> !skip_match(#[trigger] es[k].text, skip),
    ensures
        skip_filter_spec(es, skip) == es,
    decreases es.len(),
{
    reveal(Seq::filter);
    if es.len() > 0 {
        let p = es.drop_last();
        assert forall|k: int| 0 <= k < p.len() implies !skip_match(#[trigger] p[k].text, skip) by {
            assert(p[k] == es[k]);
        }
        lemma_filter_keeps_all(p, skip);
        assert(!skip_match(es[es.len() - 1].text, skip));
        assert(p.push(es.last()) =~= es);
    }
}

proof fn lemma_combine_unchanged(es: Seq<EntryView>, rules: Seq<(Seq<char>, Seq<char>)>, i: int)
    requires
        0 <= i,
        forall|k: int| 0 <= k < es.len() - 1 ==> !any_combine_rule(#[trigger] es[k].text, es[k + 1].text, rules),
    ensures
        combine_from(es, rules, i) == es,
    decreases es.len() - i,
{
    if i + 1 < es.len() {
        assert(!any_combine_rule(es[i].text, es[i + 1].text, rules));
        lemma_combine_unchanged(es, rules, i + 1);
    }
}

proof fn lemma_end_unchanged(es: Seq<EntryView>, ends: Seq<Seq<char>>, i: int)
    requires
        0 <= i,
        forall|k: int| 0 <= k < es.len() - 1 ==> first_end_from(words(#[trigger] es[k].text), ends, 0) is None,
    ensures
        end_from(es, ends, i) == es,
    decreases es.len() - i,
{
    if i + 1 < es.len() {
        assert(first_end_from(words(es[i].text), ends, 0) is None);
        assert(end_step(es, ends, i) == es);
        lemma_end_unchanged(es, ends, i + 1);
    }
}

/// Where no rule fits, the rule passes hand the entries back unchanged.
pub proof fn lemma_rules_without_fit_change_nothing(es: Seq<EntryView>, c: ConfigView)
    requires
        no_rule_fits(es, c),
    ensures
        rule_pipeline(es, c) == es,
{
    lemma_filter_keeps_all(es, c.skip_words);
    lemma_combine_unchanged(es, c.combine_phrases, 0);
    lemma_end_unchanged(es, c.end_words, 0);
}

proof fn lemma_entries_of_blocks_append(a: Seq<Seq<char>>, b: Seq<Seq<char>>)
    ensures
        entries_of_blocks(a + b) == entries_of_blocks(a) + entries_of_blocks(b),
    decreases b.len(),
{
    if b.len() == 0 {
        assert(a + b =~= a);
        assert(entries_of_blocks(b) =~= seq![]);
        assert(entries_of_blocks(a) + entries_of_blocks(b) =~= entries_of_blocks(a));
    } else {
        lemma_entries_of_blocks_append(a, b.drop_last());
        assert((a + b).drop_last() =~= a + b.drop_last());
        assert((a + b).last() == b.last());
        match entry_of_block(b.last()) {
            Some(e) => {
                assert(entries_of_blocks(a) + entries_of_blocks(b) =~= (entries_of_blocks(a)
                    + entries_of_blocks(b.drop_last())).push(e));
            },
            None => {},
        }
    }
}

/// A block whose first line is not a number gives no entry and leaves the
/// entries of the other blocks as they are.
pub proof fn lemma_malformed_block_dropped(bs: Seq<Seq<char>>, k: int)
    requires
        0 <= k < bs.len(),
        lines(bs[k]).len() > 0,
        parse_u32_spec(lines(bs[k])[0]) is None,
    ensures
        entries_of_blocks(bs) == entries_of_blocks(bs.remove(k)),
{
    let a = bs.subrange(0, k);
    let m = seq![bs[k]];
    let c = bs.subrange(k + 1, bs.len() as int);
    assert(bs =~= a + m + c);
    assert(bs.remove(k) =~= a + c);
    lemma_entries_of_blocks_append(a + m, c);
    lemma_entries_of_blocks_append(a, m);
    lemma_entries_of_blocks_append(a, c);
    assert(m.drop_last() =~= seq![]);
    assert(m.last() == bs[k]);
    assert(entry_of_block(bs[k]) is None);
    assert(entries_of_blocks(m.drop_last()) =~= seq![]);
    assert(entries_of_blocks(m) =~= seq![]);
    assert(entries_of_blocks(a) + entries_of_blocks(m) =~= entries_of_blocks(a));
}

/// Splitting `x`, a blank line, then `y` splits `x` and `y` apart, where `x`
/// does not end in a newline.
proof fn lemma_split_around_blank(x: Seq<char>, y: Seq<char>, start: int, i: int)
    requires
        0 <= start <= i <= x.len(),
        !(x.len() > 0 && x.last() == '\n'),
    ensures
        blocks_from(x + seq!['\n', '\n'] + y, start, i) == blocks_from(x, start, i) + split_blocks(y),
    decreases x.len() - i,
{
    let nn = seq!['\n', '\n'];
    let s = x + nn + y;
    let xn = x + nn;
    if i == x.len() {
        assert(s[i] == '\n' && s[i + 1] == '\n');
        assert(s.subrange(start, i) =~= x.subrange(start, x.len() as int));
        lemma_blocks_shift(xn, y, 0, 0);
        assert(xn.len() == i + 2);
    } else {
        assert(s[i] == x[i]);
        if i + 1 < x.len() {
            assert(s[i + 1] == x[i + 1]);
        } else {
            assert(x[i] == x.last());
        }
        if i + 1 < x.len() && x[i] == '\n' && x[i + 1] == '\n' {
            lemma_split_around_blank(x, y, i + 2, i + 2);
            assert(s.subrange(start, i) =~= x.subrange(start, i));
            assert(seq![x.subrange(start, i)] + blocks_from(x, i + 2, i + 2) + split_blocks(y)
                =~= seq![x.subrange(start, i)] + (blocks_from(x, i + 2, i + 2) + split_blocks(y)));
        } else {
            lemma_split_around_blank(x, y, start, i + 1);
        }
    }
}

/// In an SRT text, a block whose first line is not a number gives no entry
/// and leaves the entries of the blocks before and after it as they are.
pub proof fn lemma_malformed_block_dropped_from_text(a: Seq<char>, m: Seq<char>, b: Seq<char>)
    requires
        !(a.len() > 0 && a.last() == '\n'),
        !(m.len() > 0 && m.last() == '\n'),
        forall|j: int| 0 <= j < m.len() ==> !#[trigger] blank_at(m, j),
        lines(m).len() == 0 || parse_u32_spec(lines(m)[0]) is None,
    ensures
        parse_spec(a + seq!['\n', '\n'] + m + seq!['\n', '\n'] + b) == parse_spec(a + seq!['\n', '\n'] + b),
{
    let nn = seq!['\n', '\n'];
    let rest = m + nn + b;
    assert(a + nn + m + nn + b =~= a + nn + rest);
    lemma_split_around_blank(a, rest, 0, 0);
    lemma_split_around_blank(m, b, 0, 0);
    lemma_split_around_blank(a, b, 0, 0);
    lemma_blocks_tail(m, 0, 0);
    assert(m.subrange(0, m.len() as int) =~= m);
    let sa = split_blocks(a);
    let sb = split_blocks(b);
    let one = seq![m];
    assert(split_blocks(a + nn + rest) =~= sa + one + sb);
    assert(entry_of_block(m) is None);
    assert(one.drop_last() =~= seq![]);
    assert(entries_of_blocks(one.drop_last()) =~= seq![]);
    assert(entries_of_blocks(one) =~= seq![]);
    lemma_entries_of_blocks_append(sa + one, sb);
    lemma_entries_of_blocks_append(sa, one);
    lemma_entries_of_blocks_append(sa, sb);
    assert(entries_of_blocks(sa) + entries_of_blocks(one) =~= entries_of_blocks(sa));
}

} // verus!
