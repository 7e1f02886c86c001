//! The rule passes over a caption sequence: dropping entries that hold a skip
//! word, fusing neighbours split by a combine rule, and handing a trailing end
//! phrase on to the next entry.
use vstd::prelude::*;
use crate::srt::{entry_views, join, join_exec, EntryView, SrtEntry};
use crate::text::{
    chars_of, contains, contains_exec, ends_with, ends_with_exec, lower_chars, lower_of,
    push_all, starts_with, starts_with_exec, string_of,
};

verus! {

/// Some skip word, lower-cased, occurs in the lower-cased text.
pub open spec fn skip_match(text: Seq<char>, skip: Seq<Seq<char>>) -> bool {
    exists|k: int| 0 <= k < skip.len() && contains(lower_of(text), #[trigger] lower_of(skip[k]))
}

/// Whether `text` is to be dropped: it holds one of `skip_words` as a
/// substring, case aside.
pub fn should_skip_entry(text: &str, skip_words: &[String]) -> (r: bool)
    ensures
        r == skip_match(text@, skip_words.deep_view()),
{
    let t = chars_of(text);
    let lt = lower_chars(t.as_slice());
    let ghost skip = skip_words.deep_view();
    let mut k: usize = 0;
    while k < skip_words.len()
        invariant
            k <= skip_words@.len(),
            skip == skip_words.deep_view(),
            lt@ == lower_of(text@),
            forall|j: int| 0 <= j < k ==> !contains(lower_of(text@), #[trigger] lower_of(skip[j])),
        decreases skip_words@.len() - k,
    {
        assert(skip[k as int] == skip_words@[k as int]@);
        let w = chars_of(skip_words[k].as_str());
        let lw = lower_chars(w.as_slice());
        if contains_exec(lt.as_slice(), lw.as_slice()) {
            return true;
        }
        k = k + 1;
    }
    false
}

/// The entries kept by the skip filter, in their order.
pub open spec fn skip_filter_spec(es: Seq<EntryView>, skip: Seq<Seq<char>>) -> Seq<EntryView> {
    es.filter(|e: EntryView| !skip_match(e.text, skip))
}

/// Drops each entry whose text holds a skip word; the others stay, in order.
pub fn skip_filter(entries: &[SrtEntry], skip_words: &[String]) -> (r: Vec<SrtEntry>)
    ensures
        entry_views(r@) == skip_filter_spec(entry_views(entries@), skip_words.deep_view()),
{
    let ghost skip = skip_words.deep_view();
    let ghost es = entry_views(entries@);
    let mut out: Vec<SrtEntry> = Vec::new();
    let mut i: usize = 0;
    while i < entries.len()
        invariant
            i <= entries@.len(),
            skip == skip_words.deep_view(),
            es == entry_views(entries@),
            entry_views(out@) == skip_filter_spec(es.subrange(0, i as int), skip),
        decreases entries@.len() - i,
    {
        let ghost prev = out@;
        proof {
            let next = es.subrange(0, i + 1);
            assert(next.drop_last() =~= es.subrange(0, i as int));
            reveal(Seq::filter);
        }
        if !should_skip_entry(entries[i].text.as_str(), skip_words) {
            out.push(entries[i].duplicate());
            assert(entry_views(out@) =~= entry_views(prev).push(es[i as int]));
        }
        i = i + 1;
    }
    assert(es.subrange(0, i as int) =~= es);
    out
}

/// A combine rule `(prefix, suffix)` fits where the first text ends with the
/// prefix and the second starts with the suffix, case aside.
pub open spec fn combine_rule_fits(cur: Seq<char>, next: Seq<char>, rule: (Seq<char>, Seq<char>)) -> bool {
    ends_with(lower_of(cur), lower_of(rule.0)) && starts_with(lower_of(next), lower_of(rule.1))
}

pub open spec fn any_combine_rule(cur: Seq<char>, next: Seq<char>, rules: Seq<(Seq<char>, Seq<char>)>) -> bool {
    exists|k: int| 0 <= k < rules.len() && #[trigger] combine_rule_fits(cur, next, rules[k])
}

/// Entry `a` with the text of `b` appended after a space.
pub open spec fn combined(a: EntryView, b: EntryView) -> EntryView {
    EntryView { index: a.index, timestamp: a.timestamp, text: a.text + seq![' '] + b.text }
}

/// The combine pass from position `i`: where a rule fits entries `i` and
/// `i + 1`, they become one and `i` is tried again; else the pass moves on.
pub open spec fn combine_from(es: Seq<EntryView>, rules: Seq<(Seq<char>, Seq<char>)>, i: int) -> Seq<EntryView>
    decreases 2 * es.len() - i,
{
    if i < 0 || i + 1 >= es.len() {
        es
    } else if any_combine_rule(es[i].text, es[i + 1].text, rules) {
        combine_from(es.update(i, combined(es[i], es[i + 1])).remove(i + 1), rules, i)
    } else {
        combine_from(es, rules, i + 1)
    }
}

/// The text of `a`, a space, then the text of `b`.
fn joined_text(a: &str, b: &str) -> (r: String)
    ensures
        r@ == a@ + seq![' '] + b@,
{
    let mut cs = chars_of(a);
    cs.push(' ');
    let bs = chars_of(b);
    push_all(&mut cs, bs.as_slice());
    assert(cs@ =~= a@ + seq![' '] + b@);
    string_of(cs.as_slice())
}

/// Whether some combine rule fits `cur` followed by `next`.
fn fits_some_rule(cur: &str, next: &str, combine_phrases: &[(String, String)]) -> (r: bool)
    ensures
        r == any_combine_rule(cur@, next@, combine_phrases.deep_view()),
{
    let ghost rules = combine_phrases.deep_view();
    let c = chars_of(cur);
    let lc = lower_chars(c.as_slice());
    let n = chars_of(next);
    let ln = lower_chars(n.as_slice());
    let mut k: usize = 0;
    while k < combine_phrases.len()
        invariant
            k <= combine_phrases@.len(),
            rules == combine_phrases.deep_view(),
            lc@ == lower_of(cur@),
            ln@ == lower_of(next@),
            forall|j: int| 0 <= j < k ==> !#[trigger] combine_rule_fits(cur@, next@, rules[j]),
        decreases combine_phrases@.len() - k,
    {
        let (first, second) = &combine_phrases[k];
        assert(rules[k as int] == (first@, second@));
        let f = chars_of(first.as_str());
        let lf = lower_chars(f.as_slice());
        let s = chars_of(second.as_str());
        let ls = lower_chars(s.as_slice());
        if ends_with_exec(lc.as_slice(), lf.as_slice()) && starts_with_exec(ln.as_slice(), ls.as_slice()) {
            assert(combine_rule_fits(cur@, next@, rules[k as int]));
            return true;
        }
        k = k + 1;
    }
    false
}

/// Fuses neighbouring entries that a combine rule fits, left to right; after
/// a fusion the same position is tried again, so fusions chain.
pub fn apply_combine_rules(entries: &mut Vec<SrtEntry>, combine_phrases: &[(String, String)])
    ensures
        entry_views(final(entries)@) == combine_from(
            entry_views(old(entries)@),
            combine_phrases.deep_view(),
            0,
        ),
{
    let ghost rules = combine_phrases.deep_view();
    let ghost goal = combine_from(entry_views(entries@), rules, 0);
    let mut i: usize = 0;
    while i < entries.len() && i + 1 < entries.len()
        invariant
            i <= entries@.len(),
            rules == combine_phrases.deep_view(),
            combine_from(entry_views(entries@), rules, i as int) == goal,
        decreases 2 * entries@.len() - i,
    {
        let ghost es = entry_views(entries@);
        if fits_some_rule(entries[i].text.as_str(), entries[i + 1].text.as_str(), combine_phrases) {
            let text = joined_text(entries[i].text.as_str(), entries[i + 1].text.as_str());
            entries[i].text = text;
            entries.remove(i + 1);
            assert(entry_views(entries@) =~= es.update(i as int, combined(es[i as int], es[i + 1])).remove(i + 1));
        } else {
            i = i + 1;
        }
    }
}

/// The characters that `char::is_whitespace` accepts (Unicode `White_Space`).
pub open spec fn is_white(c: char) -> bool {
    ('\t' <= c && c <= '\r') || c == ' ' || c == '\u{85}' || c == '\u{a0}' || c == '\u{1680}'
        || ('\u{2000}' <= c && c <= '\u{200a}') || c == '\u{2028}' || c == '\u{2029}'
        || c == '\u{202f}' || c == '\u{205f}' || c == '\u{3000}'
}

pub(crate) fn is_white_exec(c: char) -> (r: bool)
    ensures
        r == is_white(c),
{
    ('\t' <= c && c <= '\r') || c == ' ' || c == '\u{85}' || c == '\u{a0}' || c == '\u{1680}'
        || ('\u{2000}' <= c && c <= '\u{200a}') || c == '\u{2028}' || c == '\u{2029}'
        || c == '\u{202f}' || c == '\u{205f}' || c == '\u{3000}'
}

/// The words of `s` from `i` on: maximal runs of non-white characters, the
/// one under way having begun at `start` (`start == i` when none is).
pub open spec fn words_from(s: Seq<char>, start: int, i: int) -> Seq<Seq<char>>
    decreases s.len() - i,
{
    if i >= s.len() {
        if start < s.len() {
            seq![s.subrange(start, s.len() as int)]
        } else {
            seq![]
        }
    } else if is_white(s[i]) {
        (if start < i { seq![s.subrange(start, i)] } else { seq![] }) + words_from(s, i + 1, i + 1)
    } else {
        words_from(s, start, i + 1)
    }
}

/// The words of `s`, as `str::split_whitespace` gives them.
pub open spec fn words(s: Seq<char>) -> Seq<Seq<char>> {
    words_from(s, 0, 0)
}

/// The words of `cs`.
pub fn words_exec(cs: &[char]) -> (r: Vec<Vec<char>>)
    ensures
        r.deep_view() == words(cs@),
{
    let n = cs.len();
    let mut out: Vec<Vec<char>> = Vec::new();
    let mut cur: Vec<char> = Vec::new();
    let ghost mut start: int = 0;
    let mut i: usize = 0;
    while i < n
        invariant
            n == cs@.len(),
            0 <= start <= i <= n,
            cur@ == cs@.subrange(start, i as int),
            out.deep_view() + words_from(cs@, start, i as int) == words(cs@),
        decreases n - i,
    {
        if is_white_exec(cs[i]) {
            let ghost before = out.deep_view();
            if cur.len() > 0 {
                assert(cur.deep_view() =~= cur@);
                out.push(cur);
                assert(out.deep_view() =~= before + seq![cs@.subrange(start, i as int)]);
            } else {
                assert(out.deep_view() =~= before + seq![]);
            }
            cur = Vec::new();
            i = i + 1;
            proof {
                start = i as int;
            }
            assert(cur@ =~= cs@.subrange(start, i as int));
        } else {
            cur.push(cs[i]);
            i = i + 1;
            assert(cur@ =~= cs@.subrange(start, i as int));
        }
    }
    if cur.len() > 0 {
        let ghost before = out.deep_view();
        assert(cur.deep_view() =~= cur@);
        out.push(cur);
        assert(out.deep_view() =~= before.push(cs@.subrange(start, n as int)));
    } else {
        assert(out.deep_view() =~= out.deep_view() + words_from(cs@, start, n as int));
    }
    out
}

/// The last words of `ws` are the words `ps`, case aside.
pub open spec fn tail_match(ws: Seq<Seq<char>>, ps: Seq<Seq<char>>) -> bool {
    ps.len() <= ws.len() && forall|j: int|
        0 <= j < ps.len() ==> #[trigger] lower_of(ws[ws.len() - ps.len() + j]) == lower_of(ps[j])
}

fn tail_match_exec(ws: &[Vec<char>], ps: &[Vec<char>]) -> (r: bool)
    ensures
        r == tail_match(ws.deep_view(), ps.deep_view()),
{
    let ghost wv = ws.deep_view();
    let ghost pv = ps.deep_view();
    if ps.len() > ws.len() {
        return false;
    }
    let wl = ws.len();
    let off = ws.len() - ps.len();
    let mut j: usize = 0;
    while j < ps.len()
        invariant
            wl == ws@.len(),
            off == ws@.len() - ps@.len(),
            j <= ps@.len(),
            wv == ws.deep_view(),
            pv == ps.deep_view(),
            forall|m: int| 0 <= m < j ==> #[trigger] lower_of(wv[wv.len() - pv.len() + m]) == lower_of(pv[m]),
        decreases ps@.len() - j,
    {
        assert(wv[off + j] == ws@[off + j]@);
        assert(pv[j as int] == ps@[j as int]@);
        let a = lower_chars(ws[off + j].as_slice());
        let b = lower_chars(ps[j].as_slice());
        if !vec_eq(&a, &b) {
            assert(lower_of(wv[wv.len() - pv.len() + j]) != lower_of(pv[j as int]));
            return false;
        }
        j = j + 1;
    }
    true
}

fn vec_eq(a: &Vec<char>, b: &Vec<char>) -> (r: bool)
    ensures
        r == (a@ == b@),
{
    if a.len() != b.len() {
        return false;
    }
    let mut k: usize = 0;
    while k < a.len()
        invariant
            a@.len() == b@.len(),
            k <= a@.len(),
            forall|m: int| 0 <= m < k ==> a@[m] == b@[m],
        decreases a@.len() - k,
    {
        if a[k] != b[k] {
            return false;
        }
        k = k + 1;
    }
    assert(a@ =~= b@);
    true
}

/// The first end phrase from position `k` on whose words end `ws`.
pub open spec fn first_end_from(ws: Seq<Seq<char>>, ends: Seq<Seq<char>>, k: int) -> Option<int>
    decreases ends.len() - k,
{
    if k < 0 || k >= ends.len() {
        None
    } else if tail_match(ws, words(ends[k])) {
        Some(k)
    } else {
        first_end_from(ws, ends, k + 1)
    }
}

/// One step of the end pass at position `i`: where the first end phrase that
/// closes entry `i` is found, its words leave entry `i` (the rest rejoined
/// with single spaces) and the phrase, as written, opens entry `i + 1`.
pub open spec fn end_step(es: Seq<EntryView>, ends: Seq<Seq<char>>, i: int) -> Seq<EntryView> {
    let ws = words(es[i].text);
    match first_end_from(ws, ends, 0) {
        Some(k) => {
            let n = words(ends[k]).len();
            es.update(
                i,
                EntryView {
                    index: es[i].index,
                    timestamp: es[i].timestamp,
                    text: join(ws.subrange(0, ws.len() - n), seq![' ']),
                },
            ).update(
                i + 1,
                EntryView {
                    index: es[i + 1].index,
                    timestamp: es[i + 1].timestamp,
                    text: ends[k] + seq![' '] + es[i + 1].text,
                },
            )
        },
        None => es,
    }
}

/// The end pass from position `i`: one step at each position but the last,
/// always moving on.
pub open spec fn end_from(es: Seq<EntryView>, ends: Seq<Seq<char>>, i: int) -> Seq<EntryView>
    decreases es.len() - i,
{
    if i < 0 || i + 1 >= es.len() {
        es
    } else {
        end_from(end_step(es, ends, i), ends, i + 1)
    }
}

/// The first end phrase whose words end `ws`, with the number of its words.
fn first_end_exec(ws: &[Vec<char>], end_words: &[String]) -> (r: Option<(usize, usize)>)
    ensures
        match r {
            Some((k, n)) => first_end_from(ws.deep_view(), end_words.deep_view(), 0) == Some(k as int)
                && n == words(end_words.deep_view()[k as int]).len() && k < end_words@.len()
                && n <= ws@.len(),
            None => first_end_from(ws.deep_view(), end_words.deep_view(), 0) is None,
        },
{
    let ghost ends = end_words.deep_view();
    let mut k: usize = 0;
    while k < end_words.len()
        invariant
            k <= end_words@.len(),
            ends == end_words.deep_view(),
            first_end_from(ws.deep_view(), ends, 0) == first_end_from(ws.deep_view(), ends, k as int),
        decreases end_words@.len() - k,
    {
        assert(ends[k as int] == end_words@[k as int]@);
        let ec = chars_of(end_words[k].as_str());
        let ps = words_exec(ec.as_slice());
        if tail_match_exec(ws, ps.as_slice()) {
            return Some((k, ps.len()));
        }
        k = k + 1;
    }
    None
}

/// Moves a trailing end phrase of each entry (but the last) to the front of
/// the next entry; the first phrase in `end_words` that fits is taken.
pub fn apply_end_rules(entries: &mut Vec<SrtEntry>, end_words: &[String])
    ensures
        entry_views(final(entries)@) == end_from(entry_views(old(entries)@), end_words.deep_view(), 0),
{
    let ghost ends = end_words.deep_view();
    let ghost goal = end_from(entry_views(entries@), ends, 0);
    let mut i: usize = 0;
    while i < entries.len() && i + 1 < entries.len()
        invariant
            i <= entries@.len(),
            ends == end_words.deep_view(),
            end_from(entry_views(entries@), ends, i as int) == goal,
        decreases entries@.len() - i,
    {
        let ghost es = entry_views(entries@);
        let tc = chars_of(entries[i].text.as_str());
        let mut ws = words_exec(tc.as_slice());
        let ghost wv = ws.deep_view();
        match first_end_exec(ws.as_slice(), end_words) {
            Some((k, n)) => {
                let keep = ws.len() - n;
                ws.truncate(keep);
                assert(ws.deep_view() =~= wv.subrange(0, keep as int));
                let left = join_exec(ws.as_slice(), 0, &[' ']);
                assert(ws.deep_view().skip(0) =~= ws.deep_view());
                assert(seq![' '] =~= [' ']@);
                assert(ends[k as int] == end_words@[k as int]@);
                let mut right = chars_of(end_words[k].as_str());
                right.push(' ');
                let nc = chars_of(entries[i + 1].text.as_str());
                push_all(&mut right, nc.as_slice());
                assert(es[i as int].text == entries@[i as int].text@);
                assert(wv == words(es[i as int].text));
                assert(left@ == join(wv.subrange(0, wv.len() - n), seq![' ']));
                assert(right@ == ends[k as int] + seq![' '] + es[i + 1].text);
                entries[i].text = string_of(left.as_slice());
                entries[i + 1].text = string_of(right.as_slice());
                assert(entry_views(entries@) =~= end_step(es, ends, i as int));
            },
            None => {
                assert(entry_views(entries@) =~= end_step(es, ends, i as int));
            },
        }
        i = i + 1;
    }
}

} // verus!
