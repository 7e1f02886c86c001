//! Reading back what the serializer wrote gives the same timing lines and
//! texts, numbered by position.
use vstd::prelude::*;
use crate::srt::{
    all_digits, count_nonempty, blocks_from, decimal, decimal_value, digit_char, digit_value, entries_of_blocks,
    entry_block, entry_of_block, is_digit, join, lines, lines_from, numbered_blocks,
    parse_spec, parse_u32_spec, render, split_blocks, strip_cr, EntryView,
};

verus! {

pub open spec fn no_newline(s: Seq<char>) -> bool {
    forall|k: int| 0 <= k < s.len() ==> #[trigger] s[k] != '\n'
}

/// What an entry must be for the serializer's output to read back as the
/// same entry: a timing line and a text, each non-empty, on one line, and not
/// ending in a carriage return.
pub open spec fn writable(e: EntryView) -> bool {
    &&& e.timestamp.len() > 0 && e.text.len() > 0
    &&& no_newline(e.timestamp) && no_newline(e.text)
    &&& e.timestamp.last() != '\r' && e.text.last() != '\r'
}

/// Entry `n` written without its final newline.
pub open spec fn core_block(n: nat, e: EntryView) -> Seq<char> {
    decimal(n) + seq!['\n'] + e.timestamp + seq!['\n'] + e.text
}

/// The entries rendered as blocks numbered from `n0`.
pub open spec fn rendered_from(es: Seq<EntryView>, n0: nat) -> Seq<char> {
    join(Seq::new(es.len(), |i: int| entry_block((n0 + i) as nat, es[i])), seq!['\n'])
}

/// The entries with their numbers set to their positions counted from `n0`.
pub open spec fn renumbered(es: Seq<EntryView>, n0: nat) -> Seq<EntryView> {
    Seq::new(
        es.len(),
        |i: int| EntryView { index: (n0 + i) as u32, timestamp: es[i].timestamp, text: es[i].text },
    )
}

pub open spec fn blank_at(s: Seq<char>, j: int) -> bool {
    j + 1 < s.len() && s[j] == '\n' && s[j + 1] == '\n'
}

proof fn lemma_decimal(n: nat)
    requires
        n >= 1,
    ensures
        decimal(n).len() > 0,
        all_digits(decimal(n)),
        decimal_value(decimal(n)) == n,
        decimal(n).last() != '\r',
        decimal(n)[0] != '+',
        no_newline(decimal(n)),
    decreases n,
{
    lemma_decimal_digits(n);
    assert(is_digit(decimal(n)[0]));
    assert(is_digit(decimal(n).last()));
}

proof fn lemma_decimal_digits(n: nat)
    ensures
        decimal(n).len() > 0,
        all_digits(decimal(n)),
        decimal_value(decimal(n)) == n,
        no_newline(decimal(n)),
    decreases n,
{
    if n < 10 {
        let d = decimal(n);
        assert(d.drop_last() =~= seq![]);
        assert(decimal_value(seq![]) == 0);
        assert(d.last() == digit_char(n));
        assert(digit_value(digit_char(n)) == n);
        assert(decimal_value(d) == decimal_value(d.drop_last()) * 10 + digit_value(d.last()));
    } else {
        lemma_decimal_digits(n / 10);
        let d = decimal(n);
        let p = decimal(n / 10);
        assert(d.drop_last() =~= p);
        assert(digit_value(digit_char(n % 10)) == n % 10);
        assert(d.last() == digit_char(n % 10));
        assert(decimal_value(d) == decimal_value(p) * 10 + digit_value(d.last()));
        assert((n / 10) * 10 + n % 10 == n);
        assert(forall|k: int| 0 <= k < d.len() ==> #[trigger] d[k] == (if k < p.len() { p[k] } else { digit_char(n % 10) }));
        assert(all_digits(d)) by {
            assert forall|k: int| 0 <= k < d.len() implies is_digit(#[trigger] d[k]) by {
                if k < p.len() {
                    assert(is_digit(p[k]));
                }
            }
        }
        assert(no_newline(d)) by {
            assert forall|k: int| 0 <= k < d.len() implies #[trigger] d[k] != '\n' by {
                if k < p.len() {
                    assert(p[k] != '\n');
                }
            }
        }
    }
}

proof fn lemma_blocks_run(s: Seq<char>, start: int, i: int, p: int)
    requires
        0 <= start <= i <= p,
        blank_at(s, p),
        forall|j: int| i <= j < p ==> !#[trigger] blank_at(s, j),
    ensures
        blocks_from(s, start, i) == seq![s.subrange(start, p)] + blocks_from(s, p + 2, p + 2),
    decreases p - i,
{
    if i < p {
        assert(!blank_at(s, i));
        lemma_blocks_run(s, start, i + 1, p);
    }
}

pub proof fn lemma_blocks_tail(s: Seq<char>, start: int, i: int)
    requires
        0 <= start <= i <= s.len(),
        forall|j: int| i <= j < s.len() ==> !#[trigger] blank_at(s, j),
    ensures
        blocks_from(s, start, i) == seq![s.subrange(start, s.len() as int)],
    decreases s.len() - i,
{
    if i < s.len() {
        assert(!blank_at(s, i));
        lemma_blocks_tail(s, start, i + 1);
    }
}

pub proof fn lemma_blocks_shift(x: Seq<char>, y: Seq<char>, a: int, b: int)
    requires
        0 <= a <= b <= y.len(),
    ensures
        blocks_from(x + y, x.len() + a, x.len() + b) == blocks_from(y, a, b),
    decreases y.len() - b,
{
    let s = x + y;
    let o = x.len() as int;
    if b < y.len() {
        assert(s[o + b] == y[b]);
        if b + 1 < y.len() {
            assert(s[o + b + 1] == y[b + 1]);
        }
        if b + 1 < y.len() && y[b] == '\n' && y[b + 1] == '\n' {
            lemma_blocks_shift(x, y, b + 2, b + 2);
            assert(s.subrange(o + a, o + b) =~= y.subrange(a, b));
        } else {
            lemma_blocks_shift(x, y, a, b + 1);
        }
    } else {
        assert(s.subrange(o + a, s.len() as int) =~= y.subrange(a, y.len() as int));
    }
}

proof fn lemma_lines_run(s: Seq<char>, start: int, i: int, p: int)
    requires
        0 <= start <= i <= p < s.len(),
        s[p] == '\n',
        forall|j: int| i <= j < p ==> #[trigger] s[j] != '\n',
    ensures
        lines_from(s, start, i) == seq![strip_cr(s.subrange(start, p))] + lines_from(s, p + 1, p + 1),
    decreases p - i,
{
    if i < p {
        lemma_lines_run(s, start, i + 1, p);
    }
}

proof fn lemma_lines_tail(s: Seq<char>, start: int, i: int)
    requires
        0 <= start <= i <= s.len(),
        forall|j: int| i <= j < s.len() ==> #[trigger] s[j] != '\n',
    ensures
        lines_from(s, start, i) == (if start < s.len() { seq![s.subrange(start, s.len() as int)] } else { seq![] }),
    decreases s.len() - i,
{
    if i < s.len() {
        lemma_lines_tail(s, start, i + 1);
    }
}

/// The three lines of a written block, with or without its final newline.
proof fn lemma_block_lines(n: nat, e: EntryView, nl: bool)
    requires
        n >= 1,
        writable(e),
    ensures
        lines(if nl { core_block(n, e) + seq!['\n'] } else { core_block(n, e) }) == seq![decimal(n), e.timestamp, e.text],
{
    lemma_decimal(n);
    let d = decimal(n);
    let c = core_block(n, e);
    let s = if nl { c + seq!['\n'] } else { c };
    let ts_nl = d.len() as int;
    let text_nl = ts_nl + 1 + e.timestamp.len();
    let core_end = c.len() as int;
    assert(forall|k: int| 0 <= k < ts_nl ==> s[k] == #[trigger] d[k]);
    assert(forall|k: int| ts_nl < k < text_nl ==> s[k] == #[trigger] e.timestamp[k - ts_nl - 1]);
    assert(forall|k: int| text_nl < k < core_end ==> s[k] == #[trigger] e.text[k - text_nl - 1]);
    assert(s[ts_nl] == '\n');
    assert(s[text_nl] == '\n');
    assert forall|j: int| 0 <= j < ts_nl implies #[trigger] s[j] != '\n' by {
        assert(d[j] != '\n');
    }
    lemma_lines_run(s, 0, 0, ts_nl);
    assert forall|j: int| ts_nl + 1 <= j < text_nl implies #[trigger] s[j] != '\n' by {
        assert(e.timestamp[j - ts_nl - 1] != '\n');
    }
    lemma_lines_run(s, ts_nl + 1, ts_nl + 1, text_nl);
    assert(s.subrange(0, ts_nl) =~= d);
    assert(s.subrange(ts_nl + 1, text_nl) =~= e.timestamp);
    assert forall|j: int| text_nl + 1 <= j < core_end implies #[trigger] s[j] != '\n' by {
        assert(e.text[j - text_nl - 1] != '\n');
    }
    assert(s.subrange(text_nl + 1, core_end) =~= e.text);
    if nl {
        assert(s[core_end] == '\n');
        lemma_lines_run(s, text_nl + 1, text_nl + 1, core_end);
        lemma_lines_tail(s, core_end + 1, core_end + 1);
        assert(lines(s) =~= seq![d, e.timestamp, e.text]);
    } else {
        lemma_lines_tail(s, text_nl + 1, text_nl + 1);
        assert(lines(s) =~= seq![d, e.timestamp, e.text]);
    }
}

proof fn lemma_block_entry(n: nat, e: EntryView, nl: bool)
    requires
        1 <= n <= u32::MAX,
        writable(e),
    ensures
        entry_of_block(if nl { core_block(n, e) + seq!['\n'] } else { core_block(n, e) })
            == Some(EntryView { index: n as u32, timestamp: e.timestamp, text: e.text }),
{
    lemma_block_lines(n, e, nl);
    lemma_decimal(n);
    let ls = seq![decimal(n), e.timestamp, e.text];
    assert(ls.skip(2) =~= seq![e.text]);
    assert(ls.drop_last() =~= seq![decimal(n), e.timestamp]);
    assert(ls.drop_last().drop_last() =~= seq![decimal(n)]);
    assert(ls.drop_last().drop_last().drop_last() =~= seq![]);
    assert(decimal(n).len() > 0);
    assert(count_nonempty(ls.drop_last().drop_last().drop_last()) == 0);
    assert(count_nonempty(ls.drop_last().drop_last()) == 1);
    assert(count_nonempty(ls.drop_last()) == 2);
    assert(count_nonempty(ls) == 3);
    assert(parse_u32_spec(decimal(n)) == Some(n as u32));
}

/// No blank line inside a written block but where it ends.
proof fn lemma_core_no_blank(n: nat, e: EntryView, s: Seq<char>)
    requires
        n >= 1,
        writable(e),
        core_block(n, e).len() <= s.len(),
        s.subrange(0, core_block(n, e).len() as int) == core_block(n, e),
    ensures
        forall|j: int| 0 <= j < core_block(n, e).len() ==> !#[trigger] blank_at(s, j),
{
    lemma_decimal(n);
    let d = decimal(n);
    let c = core_block(n, e);
    let ts_nl = d.len() as int;
    let text_nl = ts_nl + 1 + e.timestamp.len();
    let core_end = c.len() as int;
    assert forall|j: int| 0 <= j < core_end implies !#[trigger] blank_at(s, j) by {
        assert(s[j] == c[j]);
        if j < ts_nl {
            assert(c[j] == d[j]);
        } else if j == ts_nl {
            assert(s[j + 1] == c[j + 1]);
            assert(c[j + 1] == e.timestamp[0]);
        } else if j < text_nl {
            assert(c[j] == e.timestamp[j - ts_nl - 1]);
        } else if j == text_nl {
            assert(s[j + 1] == c[j + 1]);
            assert(c[j + 1] == e.text[0]);
        } else {
            assert(c[j] == e.text[j - text_nl - 1]);
        }
    }
}

proof fn lemma_join_front(p: Seq<char>, q: Seq<Seq<char>>, sep: Seq<char>)
    requires
        q.len() >= 1,
    ensures
        join(seq![p] + q, sep) == p + sep + join(q, sep),
    decreases q.len(),
{
    let pq = seq![p] + q;
    assert(pq.drop_last() =~= seq![p] + q.drop_last());
    assert(pq.last() == q.last());
    if q.len() == 1 {
        assert(seq![p].drop_last() =~= seq![]);
        assert(q.drop_last() =~= seq![]);
        assert(join(seq![p], sep) == p);
        assert(join(q, sep) == q[0]);
    } else {
        lemma_join_front(p, q.drop_last(), sep);
        assert(p + sep + join(q, sep) =~= p + sep + join(q.drop_last(), sep) + sep + q.last());
    }
}

/// The blocks that reading back the written entries finds.
pub open spec fn expected_blocks(es: Seq<EntryView>, n0: nat) -> Seq<Seq<char>> {
    Seq::new(
        es.len(),
        |i: int|
            if i + 1 < es.len() {
                core_block((n0 + i) as nat, es[i])
            } else {
                core_block((n0 + i) as nat, es[i]) + seq!['\n']
            },
    )
}

proof fn lemma_split_rendered(es: Seq<EntryView>, n0: nat)
    requires
        es.len() > 0,
        n0 >= 1,
        forall|k: int| 0 <= k < es.len() ==> writable(#[trigger] es[k]),
    ensures
        split_blocks(rendered_from(es, n0)) == expected_blocks(es, n0),
    decreases es.len(),
{
    let e0 = es[0];
    let c0 = core_block(n0, e0);
    let parts = Seq::new(es.len(), |i: int| entry_block((n0 + i) as nat, es[i]));
    assert(entry_block(n0, e0) =~= c0 + seq!['\n']);
    if es.len() == 1 {
        let s = rendered_from(es, n0);
        assert(s == parts[0]);
        assert(s =~= c0 + seq!['\n']);
        assert(s.subrange(0, c0.len() as int) =~= c0);
        lemma_core_no_blank(n0, e0, s);
        assert(!blank_at(s, c0.len() as int));
        lemma_blocks_tail(s, 0, 0);
        assert(s.subrange(0, s.len() as int) =~= s);
        assert(expected_blocks(es, n0) =~= seq![s]);
    } else {
        let rest = es.drop_first();
        let r = rendered_from(rest, n0 + 1);
        let rparts = Seq::new(rest.len(), |i: int| entry_block((n0 + 1 + i) as nat, rest[i]));
        assert(parts =~= seq![parts[0]] + rparts);
        lemma_join_front(parts[0], rparts, seq!['\n']);
        let x = c0 + seq!['\n', '\n'];
        let s = rendered_from(es, n0);
        assert(s =~= x + r);
        assert(s.subrange(0, c0.len() as int) =~= c0);
        lemma_core_no_blank(n0, e0, s);
        let p = c0.len() as int;
        assert(s[p] == '\n' && s[p + 1] == '\n');
        lemma_blocks_run(s, 0, 0, p);
        assert(s.subrange(0, p) =~= c0);
        assert(x.len() == p + 2);
        lemma_blocks_shift(x, r, 0, 0);
        assert forall|k: int| 0 <= k < rest.len() implies writable(#[trigger] rest[k]) by {
            assert(rest[k] == es[k + 1]);
        }
        lemma_split_rendered(rest, n0 + 1);
        assert(expected_blocks(es, n0) =~= seq![c0] + expected_blocks(rest, n0 + 1));
    }
}

proof fn lemma_entries_of_good_blocks(bs: Seq<Seq<char>>, f: Seq<EntryView>)
    requires
        bs.len() == f.len(),
        forall|k: int| 0 <= k < bs.len() ==> entry_of_block(#[trigger] bs[k]) == Some(f[k]),
    ensures
        entries_of_blocks(bs) == f,
    decreases bs.len(),
{
    if bs.len() > 0 {
        let b2 = bs.drop_last();
        let f2 = f.drop_last();
        assert forall|k: int| 0 <= k < b2.len() implies entry_of_block(#[trigger] b2[k]) == Some(f2[k]) by {
            assert(b2[k] == bs[k]);
        }
        lemma_entries_of_good_blocks(b2, f2);
        assert(entry_of_block(bs.last()) == Some(f.last()));
        assert(f2.push(f.last()) =~= f);
    }
}

/// Writing entries and reading the text back gives the same timing lines and
/// texts, numbered 1, 2, ... by position.
pub proof fn lemma_render_then_parse(es: Seq<EntryView>)
    requires
        es.len() <= u32::MAX,
        forall|k: int| 0 <= k < es.len() ==> writable(#[trigger] es[k]),
    ensures
        parse_spec(render(es)) == renumbered(es, 1),
{
    assert(numbered_blocks(es) =~= Seq::new(es.len(), |i: int| entry_block((1 + i) as nat, es[i])));
    if es.len() == 0 {
        assert(render(es) =~= seq![]);
        let empty: Seq<char> = seq![];
        assert(empty.subrange(0, 0) =~= empty);
        assert(split_blocks(empty) =~= seq![empty]);
        let bs = split_blocks(render(es));
        assert(bs.last() == empty);
        assert(bs.len() == 1);
        assert(lines(empty) =~= seq![]);
        assert(entry_of_block(empty) is None);
        assert(entries_of_blocks(bs.drop_last()) =~= seq![]);
        assert(bs.drop_last() =~= seq![]);
        assert(lines(seq![]) =~= seq![]);
        assert(renumbered(es, 1) =~= seq![]);
    } else {
        assert(render(es) == rendered_from(es, 1));
        lemma_split_rendered(es, 1);
        let bs = expected_blocks(es, 1);
        let f = renumbered(es, 1);
        assert forall|k: int| 0 <= k < bs.len() implies entry_of_block(#[trigger] bs[k]) == Some(f[k]) by {
            lemma_block_entry((1 + k) as nat, es[k], k + 1 >= es.len());
        }
        lemma_entries_of_good_blocks(bs, f);
    }
}

proof fn lemma_lines_no_newline(s: Seq<char>, start: int, i: int)
    requires
        0 <= start <= i <= s.len(),
        forall|j: int| start <= j < i ==> #[trigger] s[j] != '\n',
    ensures
        forall|m: int| 0 <= m < lines_from(s, start, i).len() ==> no_newline(#[trigger] lines_from(s, start, i)[m]),
    decreases s.len() - i,
{
    if i >= s.len() {
        if start < s.len() {
            let l = s.subrange(start, s.len() as int);
            assert(no_newline(l)) by {
                assert forall|k: int| 0 <= k < l.len() implies #[trigger] l[k] != '\n' by {
                    assert(l[k] == s[start + k]);
                }
            }
            assert(lines_from(s, start, i) == seq![l]);
            assert(lines_from(s, start, i)[0] == l);
        }
    } else if s[i] == '\n' {
        let l = s.subrange(start, i);
        let t = strip_cr(l);
        assert(no_newline(t)) by {
            assert forall|k: int| 0 <= k < t.len() implies #[trigger] t[k] != '\n' by {
                assert(t[k] == s[start + k]);
            }
        }
        lemma_lines_no_newline(s, i + 1, i + 1);
        let rest = lines_from(s, i + 1, i + 1);
        assert forall|m: int| 0 <= m < lines_from(s, start, i).len() implies no_newline(#[trigger] lines_from(s, start, i)[m]) by {
            assert(lines_from(s, start, i) == seq![t] + rest);
            if m > 0 {
                assert(lines_from(s, start, i)[m] == rest[m - 1]);
            } else {
                assert(lines_from(s, start, i)[m] == t);
            }
        }
    } else {
        lemma_lines_no_newline(s, start, i + 1);
        assert(lines_from(s, start, i) == lines_from(s, start, i + 1));
    }
}

proof fn lemma_join_no_newline(parts: Seq<Seq<char>>, sep: Seq<char>)
    requires
        no_newline(sep),
        forall|m: int| 0 <= m < parts.len() ==> no_newline(#[trigger] parts[m]),
    ensures
        no_newline(join(parts, sep)),
    decreases parts.len(),
{
    if parts.len() > 1 {
        let p = parts.drop_last();
        assert forall|m: int| 0 <= m < p.len() implies no_newline(#[trigger] p[m]) by {
            assert(p[m] == parts[m]);
        }
        lemma_join_no_newline(p, sep);
        let a = join(p, sep);
        let l = parts.last();
        assert(no_newline(l));
        let j = a + sep + l;
        assert forall|k: int| 0 <= k < j.len() implies #[trigger] j[k] != '\n' by {
            if k < a.len() {
                assert(j[k] == a[k]);
            } else if k < a.len() + sep.len() {
                assert(j[k] == sep[k - a.len()]);
            } else {
                assert(j[k] == l[k - a.len() - sep.len()]);
            }
        }
    } else if parts.len() == 1 {
        assert(no_newline(parts[0]));
    }
}

proof fn lemma_parsed_one_line(bs: Seq<Seq<char>>)
    ensures
        forall|k: int| 0 <= k < entries_of_blocks(bs).len() ==> no_newline(#[trigger] entries_of_blocks(bs)[k].timestamp)
            && no_newline(entries_of_blocks(bs)[k].text),
    decreases bs.len(),
{
    if bs.len() > 0 {
        lemma_parsed_one_line(bs.drop_last());
        let b = bs.last();
        match entry_of_block(b) {
            Some(e) => {
                lemma_lines_no_newline(b, 0, 0);
                let ls = lines(b);
                assert(no_newline(ls[1]));
                let tail = ls.skip(2);
                assert forall|m: int| 0 <= m < tail.len() implies no_newline(#[trigger] tail[m]) by {
                    assert(tail[m] == ls[m + 2]);
                }
                assert(no_newline(seq![' '])) by {
                    assert forall|k: int| 0 <= k < seq![' '].len() implies #[trigger] seq![' '][k] != '\n' by {
                        assert(seq![' '][k] == ' ');
                    }
                }
                lemma_join_no_newline(tail, seq![' ']);
                let prev = entries_of_blocks(bs.drop_last());
                assert(entries_of_blocks(bs) == prev.push(e));
                assert(e.timestamp == ls[1] && e.text == join(tail, seq![' ']));
                assert forall|k: int| 0 <= k < entries_of_blocks(bs).len() implies no_newline(
                    #[trigger] entries_of_blocks(bs)[k].timestamp,
                ) && no_newline(entries_of_blocks(bs)[k].text) by {
                    if k < prev.len() {
                        assert(entries_of_blocks(bs)[k] == prev[k]);
                    }
                }
            },
            None => {
                assert(entries_of_blocks(bs) == entries_of_blocks(bs.drop_last()));
            },
        }
    }
}

/// Reading an SRT text, writing the entries and reading that again gives the
/// same timing lines and texts, for texts whose entries each have a
/// non-empty timing line and text, neither ending in a carriage return, and
/// that number no more than `u32::MAX` entries.
pub proof fn lemma_parse_is_idempotent(x: Seq<char>)
    requires
        parse_spec(x).len() <= u32::MAX,
        forall|k: int| 0 <= k < parse_spec(x).len() ==> {
            let e = #[trigger] parse_spec(x)[k];
            e.timestamp.len() > 0 && e.text.len() > 0 && e.timestamp.last() != '\r' && e.text.last() != '\r'
        },
    ensures
        parse_spec(render(parse_spec(x))).len() == parse_spec(x).len(),
        forall|k: int| 0 <= k < parse_spec(x).len() ==> {
            &&& (#[trigger] parse_spec(render(parse_spec(x)))[k]).timestamp == parse_spec(x)[k].timestamp
            &&& parse_spec(render(parse_spec(x)))[k].text == parse_spec(x)[k].text
        },
{
    let es = parse_spec(x);
    lemma_parsed_one_line(split_blocks(x));
    assert forall|k: int| 0 <= k < es.len() implies writable(#[trigger] es[k]) by {
        assert(no_newline(es[k].timestamp));
    }
    lemma_render_then_parse(es);
}

} // verus!
