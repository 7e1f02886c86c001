//! The SRT block format: caption entries, parsing raw text into them, and
//! rendering them back with sequential numbering.
use vstd::prelude::*;
use crate::text::{chars_of, push_all, string_of};

verus! {

/// One caption: its source number, its timing line kept verbatim, and its text.
#[derive(Debug, Clone)]
pub struct SrtEntry {
    pub index: u32,
    pub timestamp: String,
    pub text: String,
}

/// The mathematical value of an [`SrtEntry`].
pub struct EntryView {
    pub index: u32,
    pub timestamp: Seq<char>,
    pub text: Seq<char>,
}

impl View for SrtEntry {
    type V = EntryView;

    open spec fn view(&self) -> EntryView {
        EntryView { index: self.index, timestamp: self.timestamp@, text: self.text@ }
    }
}

impl SrtEntry {
    /// A copy of the entry.
    pub fn duplicate(&self) -> (r: SrtEntry)
        ensures
            r@ == self@,
    {
        SrtEntry { index: self.index, timestamp: self.timestamp.clone(), text: self.text.clone() }
    }
}

pub open spec fn entry_views(es: Seq<SrtEntry>) -> Seq<EntryView> {
    es.map_values(|e: SrtEntry| e@)
}

/// The blocks of `s`, splitting left to right on each `"\n\n"`; the block under
/// way began at `start`, and scanning has reached `i`.
pub open spec fn blocks_from(s: Seq<char>, start: int, i: int) -> Seq<Seq<char>>
    decreases s.len() - i,
{
    if i >= s.len() {
        seq![s.subrange(start, s.len() as int)]
    } else if i + 1 < s.len() && s[i] == '\n' && s[i + 1] == '\n' {
        seq![s.subrange(start, i)] + blocks_from(s, i + 2, i + 2)
    } else {
        blocks_from(s, start, i + 1)
    }
}

/// `s` split on the separator `"\n\n"`, as `str::split` does.
pub open spec fn split_blocks(s: Seq<char>) -> Seq<Seq<char>> {
    blocks_from(s, 0, 0)
}

/// A line without the carriage return that ended it.
pub open spec fn strip_cr(l: Seq<char>) -> Seq<char> {
    if l.len() > 0 && l.last() == '\r' {
        l.drop_last()
    } else {
        l
    }
}

/// The lines of `s` from `start` on, scanning at `i`: split after each `'\n'`,
/// a `'\r'` before the `'\n'` dropped, no final empty line (as `str::lines`).
pub open spec fn lines_from(s: Seq<char>, start: int, i: int) -> Seq<Seq<char>>
    decreases s.len() - i,
{
    if i >= s.len() {
        if start < s.len() {
            seq![s.subrange(start, s.len() as int)]
        } else {
            seq![]
        }
    } else if s[i] == '\n' {
        seq![strip_cr(s.subrange(start, i))] + lines_from(s, i + 1, i + 1)
    } else {
        lines_from(s, start, i + 1)
    }
}

pub open spec fn lines(s: Seq<char>) -> Seq<Seq<char>> {
    lines_from(s, 0, 0)
}

pub open spec fn is_digit(c: char) -> bool {
    '0' <= c && c <= '9'
}

pub open spec fn digit_value(c: char) -> nat {
    (c as nat - '0' as nat) as nat
}

/// The number written by a string of decimal digits.
pub open spec fn decimal_value(d: Seq<char>) -> nat
    decreases d.len(),
{
    if d.len() == 0 {
        0
    } else {
        decimal_value(d.drop_last()) * 10 + digit_value(d.last())
    }
}

pub open spec fn all_digits(d: Seq<char>) -> bool {
    forall|k: int| 0 <= k < d.len() ==> is_digit(#[trigger] d[k])
}

/// What `str::parse::<u32>` accepts: an optional `'+'`, then one or more ASCII
/// digits whose value fits in a `u32`.
pub open spec fn parse_u32_spec(l: Seq<char>) -> Option<u32> {
    let d = if l.len() > 0 && l[0] == '+' { l.skip(1) } else { l };
    if d.len() > 0 && all_digits(d) && decimal_value(d) <= u32::MAX {
        Some(decimal_value(d) as u32)
    } else {
        None
    }
}

/// The parts joined, with `sep` between each two.
pub open spec fn join(parts: Seq<Seq<char>>, sep: Seq<char>) -> Seq<char>
    decreases parts.len(),
{
    if parts.len() == 0 {
        seq![]
    } else if parts.len() == 1 {
        parts[0]
    } else {
        join(parts.drop_last(), sep) + sep + parts.last()
    }
}

/// How many of the lines are non-empty.
pub open spec fn count_nonempty(ls: Seq<Seq<char>>) -> nat
    decreases ls.len(),
{
    if ls.len() == 0 {
        0
    } else {
        count_nonempty(ls.drop_last()) + if ls.last().len() > 0 { 1nat } else { 0nat }
    }
}

/// The entry a block stands for: at least three non-empty lines, the first a
/// number; the second is the timing line and the rest, joined with spaces,
/// the text.
pub open spec fn entry_of_block(b: Seq<char>) -> Option<EntryView> {
    let ls = lines(b);
    if ls.len() >= 3 && count_nonempty(ls) >= 3 && parse_u32_spec(ls[0]) is Some {
        Some(
            EntryView {
                index: parse_u32_spec(ls[0])->0,
                timestamp: ls[1],
                text: join(ls.skip(2), seq![' ']),
            },
        )
    } else {
        None
    }
}

/// The entries of the blocks that stand for one, in order.
pub open spec fn entries_of_blocks(bs: Seq<Seq<char>>) -> Seq<EntryView>
    decreases bs.len(),
{
    if bs.len() == 0 {
        seq![]
    } else {
        let prev = entries_of_blocks(bs.drop_last());
        match entry_of_block(bs.last()) {
            Some(e) => prev.push(e),
            None => prev,
        }
    }
}

/// The entries of an SRT text.
pub open spec fn parse_spec(s: Seq<char>) -> Seq<EntryView> {
    entries_of_blocks(split_blocks(s))
}

/// Splits `cs` on each `"\n\n"`.
pub fn split_blocks_exec(cs: &[char]) -> (r: Vec<Vec<char>>)
    ensures
        r.deep_view() == split_blocks(cs@),
{
    let n = cs.len();
    let mut out: Vec<Vec<char>> = Vec::new();
    let mut cur: Vec<char> = Vec::new();
    let ghost mut start: int = 0;
    let mut i: usize = 0;
    while i < n
        invariant
            n == cs@.len(),
            0 <= start <= i <= n,
            cur@ == cs@.subrange(start, i as int),
            out.deep_view() + blocks_from(cs@, start, i as int) == split_blocks(cs@),
        decreases n - i,
    {
        if i + 1 < n && cs[i] == '\n' && cs[i + 1] == '\n' {
            let ghost before = out.deep_view();
            assert(cur.deep_view() =~= cur@);
            out.push(cur);
            assert(out.deep_view() =~= before.push(cs@.subrange(start, i as int)));
            cur = Vec::new();
            i = i + 2;
            proof {
                start = i as int;
            }
            assert(cur@ =~= cs@.subrange(start, i as int));
            assert(out.deep_view() + blocks_from(cs@, start, i as int) =~= split_blocks(cs@));
        } else {
            cur.push(cs[i]);
            i = i + 1;
            assert(cur@ =~= cs@.subrange(start, i as int));
        }
    }
    let ghost before = out.deep_view();
    assert(cur.deep_view() =~= cur@);
    out.push(cur);
    assert(out.deep_view() =~= before.push(cs@.subrange(start, n as int)));
    assert(out.deep_view() =~= split_blocks(cs@));
    out
}

/// The lines of `cs`, as `str::lines` gives them.
pub fn lines_exec(cs: &[char]) -> (r: Vec<Vec<char>>)
    ensures
        r.deep_view() == lines(cs@),
{
    let n = cs.len();
    let mut out: Vec<Vec<char>> = Vec::new();
    let mut cur: Vec<char> = Vec::new();
    let ghost mut start: int = 0;
    let mut i: usize = 0;
    while i < n
        invariant
            n == cs@.len(),
            0 <= start <= i <= n,
            cur@ == cs@.subrange(start, i as int),
            out.deep_view() + lines_from(cs@, start, i as int) == lines(cs@),
        decreases n - i,
    {
        if cs[i] == '\n' {
            if cur.len() > 0 && cur[cur.len() - 1] == '\r' {
                cur.pop();
            }
            assert(cur@ =~= strip_cr(cs@.subrange(start, i as int)));
            let ghost before = out.deep_view();
            assert(cur.deep_view() =~= cur@);
            out.push(cur);
            assert(out.deep_view() =~= before.push(strip_cr(cs@.subrange(start, i as int))));
            cur = Vec::new();
            i = i + 1;
            proof {
                start = i as int;
            }
            assert(cur@ =~= cs@.subrange(start, i as int));
            assert(out.deep_view() + lines_from(cs@, start, i as int) =~= lines(cs@));
        } else {
            cur.push(cs[i]);
            i = i + 1;
            assert(cur@ =~= cs@.subrange(start, i as int));
        }
    }
    if cur.len() > 0 {
        let ghost before = out.deep_view();
        assert(cur.deep_view() =~= cur@);
        out.push(cur);
        assert(out.deep_view() =~= before.push(cs@.subrange(start, n as int)));
    } else {
        assert(out.deep_view() =~= out.deep_view() + lines_from(cs@, start, n as int));
    }
    out
}

/// A longer digit string is worth at least as much as its prefix.
proof fn lemma_decimal_prefix(d: Seq<char>, k: int)
    requires
        0 <= k <= d.len(),
    ensures
        decimal_value(d.subrange(0, k)) <= decimal_value(d),
    decreases d.len(),
{
    if k < d.len() {
        lemma_decimal_prefix(d.drop_last(), k);
        assert(d.drop_last().subrange(0, k) =~= d.subrange(0, k));
    } else {
        assert(d.subrange(0, k) =~= d);
    }
}

/// Reads an unsigned 32-bit number, as `str::parse::<u32>` does.
pub fn parse_u32(l: &[char]) -> (r: Option<u32>)
    ensures
        r == parse_u32_spec(l@),
{
    let first: usize = if l.len() > 0 && l[0] == '+' { 1 } else { 0 };
    let ghost d = if l@.len() > 0 && l@[0] == '+' { l@.skip(1) } else { l@ };
    assert(d =~= l@.subrange(first as int, l@.len() as int));
    if first >= l.len() {
        return None;
    }
    let mut acc: u64 = 0;
    let mut i: usize = first;
    while i < l.len()
        invariant
            first <= i <= l@.len(),
            d == l@.subrange(first as int, l@.len() as int),
            d == (if l@.len() > 0 && l@[0] == '+' { l@.skip(1) } else { l@ }),
            all_digits(d.subrange(0, i - first)),
            acc == decimal_value(d.subrange(0, i - first)),
            acc <= u32::MAX,
        decreases l@.len() - i,
    {
        let c = l[i];
        if !('0' <= c && c <= '9') {
            assert(d[i - first] == c);
            assert(!is_digit(d[i - first]));
            assert(!all_digits(d));
            return None;
        }
        let ghost pre = d.subrange(0, i - first);
        let ghost next = d.subrange(0, i + 1 - first);
        assert(next.drop_last() =~= pre);
        assert(next.last() == c);
        assert(decimal_value(next) == acc * 10 + digit_value(c));
        acc = acc * 10 + (c as u64 - '0' as u64);
        i = i + 1;
        assert(all_digits(next));
        if acc > 0xFFFF_FFFF {
            proof {
                lemma_decimal_prefix(d, i - first);
                assert(decimal_value(d) > u32::MAX);
            }
            return None;
        }
    }
    assert(d.subrange(0, i - first) =~= d);
    Some(acc as u32)
}

/// The parts from position `from` on, joined with `sep` between each two.
pub fn join_exec(parts: &[Vec<char>], from: usize, sep: &[char]) -> (r: Vec<char>)
    requires
        from <= parts@.len(),
    ensures
        r@ == join(parts.deep_view().skip(from as int), sep@),
{
    let mut out: Vec<char> = Vec::new();
    let mut i: usize = from;
    assert(parts.deep_view().subrange(from as int, i as int) =~= seq![]);
    while i < parts.len()
        invariant
            from <= i <= parts@.len(),
            out@ == join(parts.deep_view().subrange(from as int, i as int), sep@),
        decreases parts@.len() - i,
    {
        let ghost prefix = parts.deep_view().subrange(from as int, i as int);
        let ghost next = parts.deep_view().subrange(from as int, i + 1);
        assert(next.drop_last() =~= prefix);
        if i > from {
            let mut k: usize = 0;
            let ghost base = out@;
            while k < sep.len()
                invariant
                    k <= sep@.len(),
                    out@ == base + sep@.subrange(0, k as int),
                decreases sep@.len() - k,
            {
                out.push(sep[k]);
                k = k + 1;
                assert(out@ =~= base + sep@.subrange(0, k as int));
            }
            assert(sep@.subrange(0, k as int) =~= sep@);
        }
        let ghost base = out@;
        let part = &parts[i];
        let mut k: usize = 0;
        while k < part.len()
            invariant
                k <= part@.len(),
                out@ == base + part@.subrange(0, k as int),
            decreases part@.len() - k,
        {
            out.push(part[k]);
            k = k + 1;
            assert(out@ =~= base + part@.subrange(0, k as int));
        }
        assert(part@.subrange(0, k as int) =~= part@);
        assert(next.last() =~= part@);
        if i == from {
            assert(out@ =~= join(next, sep@));
        } else {
            assert(out@ =~= join(next, sep@));
        }
        i = i + 1;
    }
    assert(parts.deep_view().subrange(from as int, i as int) =~= parts.deep_view().skip(from as int));
    out
}

/// How many of the lines are non-empty.
pub fn count_nonempty_exec(ls: &[Vec<char>]) -> (r: usize)
    ensures
        r == count_nonempty(ls.deep_view()),
{
    let ghost lv = ls.deep_view();
    let mut n: usize = 0;
    let mut i: usize = 0;
    while i < ls.len()
        invariant
            i <= ls@.len(),
            n <= i,
            lv == ls.deep_view(),
            n == count_nonempty(lv.subrange(0, i as int)),
        decreases ls@.len() - i,
    {
        assert(lv.subrange(0, i + 1).drop_last() =~= lv.subrange(0, i as int));
        assert(lv[i as int] == ls@[i as int]@);
        if ls[i].len() > 0 {
            n = n + 1;
        }
        i = i + 1;
    }
    assert(lv.subrange(0, i as int) =~= lv);
    n
}

/// The entry a block of characters stands for, if any.
pub fn entry_of_block_exec(b: &[char]) -> (r: Option<SrtEntry>)
    ensures
        match r {
            Some(e) => entry_of_block(b@) == Some(e@),
            None => entry_of_block(b@) is None,
        },
{
    let ls = lines_exec(b);
    if ls.len() < 3 || count_nonempty_exec(ls.as_slice()) < 3 {
        return None;
    }
    assert(ls.deep_view()[0] =~= ls@[0]@);
    assert(ls.deep_view()[1] =~= ls@[1]@);
    match parse_u32(ls[0].as_slice()) {
        None => None,
        Some(index) => {
            let text = join_exec(ls.as_slice(), 2, &[' ']);
            let e = SrtEntry { index, timestamp: string_of(ls[1].as_slice()), text: string_of(text.as_slice()) };
            proof {
                let sp = seq![' '];
                assert(sp =~= [' ']@);
                let ls_v = lines(b@);
                assert(ls_v[0] == ls@[0]@);
                assert(e@ == EntryView { index: parse_u32_spec(ls_v[0])->0, timestamp: ls_v[1], text: join(ls_v.skip(2), sp) });
            }
            Some(e)
        },
    }
}

/// The entries of an SRT text, in order: one for each block of at least three
/// non-empty lines whose first line is a number; other blocks are passed over.
pub fn parse_srt(content: &str) -> (r: Vec<SrtEntry>)
    ensures
        entry_views(r@) == parse_spec(content@),
{
    let cs = chars_of(content);
    let blocks = split_blocks_exec(cs.as_slice());
    let ghost bs = blocks.deep_view();
    let mut out: Vec<SrtEntry> = Vec::new();
    let mut i: usize = 0;
    while i < blocks.len()
        invariant
            i <= blocks@.len(),
            bs == blocks.deep_view(),
            bs == split_blocks(content@),
            entry_views(out@) == entries_of_blocks(bs.subrange(0, i as int)),
        decreases blocks@.len() - i,
    {
        let ghost prev = out@;
        let e = entry_of_block_exec(blocks[i].as_slice());
        assert(bs.subrange(0, i + 1).drop_last() =~= bs.subrange(0, i as int));
        assert(bs[i as int] == blocks@[i as int]@);
        match e {
            Some(e) => {
                out.push(e);
                assert(entry_views(out@) =~= entry_views(prev).push(e@));
            },
            None => {},
        }
        i = i + 1;
    }
    assert(bs.subrange(0, i as int) =~= bs);
    out
}

pub open spec fn digit_char(d: nat) -> char {
    (d + '0' as nat) as char
}

/// The decimal numeral of `n`, without leading zeros.
pub open spec fn decimal(n: nat) -> Seq<char>
    decreases n,
{
    if n < 10 {
        seq![digit_char(n)]
    } else {
        decimal(n / 10).push(digit_char(n % 10))
    }
}

/// The decimal numeral of `n`.
pub fn decimal_exec(n: usize) -> (r: Vec<char>)
    ensures
        r@ == decimal(n as nat),
    decreases n,
{
    let d = ((n % 10) as u8 + 48u8) as char;
    if n < 10 {
        let r = vec![d];
        assert(r@ =~= decimal(n as nat));
        r
    } else {
        let mut r = decimal_exec(n / 10);
        r.push(d);
        r
    }
}

/// How entry `e` is written at 1-based position `n`.
pub open spec fn entry_block(n: nat, e: EntryView) -> Seq<char> {
    decimal(n) + seq!['\n'] + e.timestamp + seq!['\n'] + e.text + seq!['\n']
}

/// The blocks of `es`, numbered from 1 by position.
pub open spec fn numbered_blocks(es: Seq<EntryView>) -> Seq<Seq<char>> {
    Seq::new(es.len(), |i: int| entry_block((i + 1) as nat, es[i]))
}

/// The SRT text of `es`: the numbered blocks with one blank line between each two.
pub open spec fn render(es: Seq<EntryView>) -> Seq<char> {
    join(numbered_blocks(es), seq!['\n'])
}

/// Writes the entries as SRT text, numbered 1, 2, ... by position; the
/// numbers the entries carry are not used.
pub fn format_srt_output(entries: &[SrtEntry]) -> (r: String)
    ensures
        r@ == render(entry_views(entries@)),
{
    let ghost es = entry_views(entries@);
    let mut out: Vec<char> = Vec::new();
    let mut i: usize = 0;
    while i < entries.len()
        invariant
            i <= entries@.len(),
            es == entry_views(entries@),
            out@ == join(numbered_blocks(es).subrange(0, i as int), seq!['\n']),
        decreases entries@.len() - i,
    {
        let ghost prev = numbered_blocks(es).subrange(0, i as int);
        let ghost next = numbered_blocks(es).subrange(0, i + 1);
        assert(next.drop_last() =~= prev);
        let ghost before = out@;
        if i > 0 {
            out.push('\n');
        }
        let e = &entries[i];
        let num = decimal_exec(i + 1);
        push_all(&mut out, num.as_slice());
        out.push('\n');
        let ts = chars_of(e.timestamp.as_str());
        push_all(&mut out, ts.as_slice());
        out.push('\n');
        let tx = chars_of(e.text.as_str());
        push_all(&mut out, tx.as_slice());
        out.push('\n');
        assert(next.last() =~= entry_block((i + 1) as nat, es[i as int]));
        if i == 0 {
            assert(out@ =~= join(next, seq!['\n']));
        } else {
            assert(out@ =~= before + seq!['\n'] + next.last());
        }
        i = i + 1;
    }
    assert(numbered_blocks(es).subrange(0, i as int) =~= numbered_blocks(es));
    string_of(out.as_slice())
}

/// Entry `a` carrying the text of `b` on a second line.
pub open spec fn paired(a: EntryView, b: EntryView) -> EntryView {
    EntryView { index: a.index, timestamp: a.timestamp, text: a.text + seq!['\n'] + b.text }
}

/// The bilingual merge from position `i`: two neighbours with the same timing
/// line become one entry and are both consumed; any other entry passes as it is.
pub open spec fn merge_from(es: Seq<EntryView>, i: int) -> Seq<EntryView>
    decreases es.len() - i,
{
    if i < 0 || i >= es.len() {
        seq![]
    } else if i + 1 < es.len() && es[i].timestamp == es[i + 1].timestamp {
        seq![paired(es[i], es[i + 1])] + merge_from(es, i + 2)
    } else {
        seq![es[i]] + merge_from(es, i + 1)
    }
}

/// Merges each two neighbouring entries that share a timing line into one
/// entry whose text holds both, first over second.
pub fn merge_bilingual(entries: &[SrtEntry]) -> (r: Vec<SrtEntry>)
    ensures
        entry_views(r@) == merge_from(entry_views(entries@), 0),
{
    let ghost es = entry_views(entries@);
    let mut out: Vec<SrtEntry> = Vec::new();
    let mut i: usize = 0;
    while i < entries.len()
        invariant
            i <= entries@.len(),
            es == entry_views(entries@),
            entry_views(out@) + merge_from(es, i as int) == merge_from(es, 0),
        decreases entries@.len() - i,
    {
        let ghost prev = out@;
        if i + 1 < entries.len() && entries[i].timestamp == entries[i + 1].timestamp {
            let a = chars_of(entries[i].text.as_str());
            let mut t = a;
            t.push('\n');
            let b = chars_of(entries[i + 1].text.as_str());
            push_all(&mut t, b.as_slice());
            assert(t@ =~= es[i as int].text + seq!['\n'] + es[i + 1].text);
            let e = SrtEntry {
                index: entries[i].index,
                timestamp: entries[i].timestamp.clone(),
                text: string_of(t.as_slice()),
            };
            assert(e@ == paired(es[i as int], es[i + 1]));
            out.push(e);
            assert(entry_views(out@) =~= entry_views(prev).push(paired(es[i as int], es[i + 1])));
            assert(entry_views(out@) + merge_from(es, i + 2) =~= merge_from(es, 0));
            i = i + 2;
        } else {
            out.push(entries[i].duplicate());
            assert(entry_views(out@) =~= entry_views(prev).push(es[i as int]));
            assert(entry_views(out@) + merge_from(es, i + 1) =~= merge_from(es, 0));
            i = i + 1;
        }
    }
    assert(entry_views(out@) =~= merge_from(es, 0));
    out
}

} // verus!
