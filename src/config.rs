//! The rule configuration and its text format: lines `KEY: "..." "..."`.
use vstd::prelude::*;
use crate::rules::{is_white, is_white_exec};
use crate::srt::lines_exec;
use crate::srt::lines;
use crate::text::{chars_of, starts_with, starts_with_exec, string_of, string_of_range};

verus! {

/// The rules that drive the passes.
#[derive(Debug, Default)]
pub struct Config {
    pub skip_words: Vec<String>,
    pub combine_phrases: Vec<(String, String)>,
    pub end_words: Vec<String>,
    pub insert_phrases: Vec<(String, String)>,
    pub split_words: Vec<String>,
}

/// The mathematical value of a [`Config`].
pub struct ConfigView {
    pub skip_words: Seq<Seq<char>>,
    pub combine_phrases: Seq<(Seq<char>, Seq<char>)>,
    pub end_words: Seq<Seq<char>>,
    pub insert_phrases: Seq<(Seq<char>, Seq<char>)>,
    pub split_words: Seq<Seq<char>>,
}

impl View for Config {
    type V = ConfigView;

    open spec fn view(&self) -> ConfigView {
        ConfigView {
            skip_words: self.skip_words.deep_view(),
            combine_phrases: self.combine_phrases.deep_view(),
            end_words: self.end_words.deep_view(),
            insert_phrases: self.insert_phrases.deep_view(),
            split_words: self.split_words.deep_view(),
        }
    }
}

pub open spec fn empty_config() -> ConfigView {
    ConfigView {
        skip_words: seq![],
        combine_phrases: seq![],
        end_words: seq![],
        insert_phrases: seq![],
        split_words: seq![],
    }
}

/// The first position from `j` on that holds `c`.
pub open spec fn next_index_of(s: Seq<char>, c: char, j: int) -> Option<int>
    decreases s.len() - j,
{
    if j < 0 || j >= s.len() {
        None
    } else if s[j] == c {
        Some(j)
    } else {
        next_index_of(s, c, j + 1)
    }
}

pub proof fn lemma_next_index_of(s: Seq<char>, c: char, j: int)
    requires
        0 <= j,
    ensures
        match next_index_of(s, c, j) {
            Some(k) => j <= k < s.len() && s[k] == c,
            None => true,
        },
    decreases s.len() - j,
{
    if j < s.len() && s[j] != c {
        lemma_next_index_of(s, c, j + 1);
    }
}

fn next_index_of_exec(s: &[char], c: char, j: usize) -> (r: Option<usize>)
    ensures
        match r {
            Some(k) => next_index_of(s@, c, j as int) == Some(k as int) && j <= k < s@.len() && s@[k as int] == c,
            None => next_index_of(s@, c, j as int) is None,
        },
{
    let mut k: usize = j;
    while k < s.len()
        invariant
            j <= k,
            next_index_of(s@, c, j as int) == next_index_of(s@, c, k as int),
        decreases s@.len() - k,
    {
        if s[k] == c {
            return Some(k);
        }
        k = k + 1;
    }
    None
}

/// The contents of the `"..."` spans of `s` from position `i` on, scanning as
/// the pattern `"([^"]+)"` matches: leftmost first, without overlap; an empty
/// `""` or a quote that is never closed yields nothing.
pub open spec fn quoted_from(s: Seq<char>, i: int) -> Seq<Seq<char>>
    decreases s.len() - i via quoted_from_decreases
{
    if i < 0 || i >= s.len() {
        seq![]
    } else if s[i] != '"' {
        quoted_from(s, i + 1)
    } else {
        match next_index_of(s, '"', i + 1) {
            None => seq![],
            Some(j) => if j <= i + 1 {
                quoted_from(s, i + 1)
            } else {
                seq![s.subrange(i + 1, j)] + quoted_from(s, j + 1)
            },
        }
    }
}

#[via_fn]
pub proof fn quoted_from_decreases(s: Seq<char>, i: int) {
    if 0 <= i < s.len() && s[i] == '"' {
        lemma_next_index_of(s, '"', i + 1);
    }
}

pub open spec fn quoted_list(s: Seq<char>) -> Seq<Seq<char>> {
    quoted_from(s, 0)
}

/// The contents of the double-quoted spans of `content`, in order.
pub fn parse_quoted_list(content: &[char]) -> (r: Vec<String>)
    ensures
        r.deep_view() == quoted_list(content@),
{
    let n = content.len();
    let mut out: Vec<String> = Vec::new();
    let mut i: usize = 0;
    while i < n
        invariant
            n == content@.len(),
            i <= n,
            out.deep_view() + quoted_from(content@, i as int) == quoted_list(content@),
        decreases n - i,
    {
        if content[i] != '"' {
            i = i + 1;
        } else {
            match next_index_of_exec(content, '"', i + 1) {
                None => {
                    assert(out.deep_view() + quoted_from(content@, n as int) =~= quoted_list(content@));
                    i = n;
                },
                Some(j) => {
                    if j == i + 1 {
                        i = i + 1;
                    } else {
                        let ghost before = out.deep_view();
                        let mut piece: Vec<char> = Vec::new();
                        let mut k: usize = i + 1;
                        while k < j
                            invariant
                                i + 1 <= k <= j < content@.len(),
                                piece@ == content@.subrange(i + 1, k as int),
                            decreases j - k,
                        {
                            piece.push(content[k]);
                            k = k + 1;
                            assert(piece@ =~= content@.subrange(i + 1, k as int));
                        }
                        let item = string_of(piece.as_slice());
                        out.push(item);
                        assert(out.deep_view() =~= before + seq![content@.subrange(i + 1, j as int)]);
                        i = j + 1;
                    }
                },
            }
        }
    }
    assert(out.deep_view() =~= quoted_list(content@));
    out
}

/// A phrase split at its first space, if it holds one.
pub open spec fn split_at_space(p: Seq<char>) -> Option<(Seq<char>, Seq<char>)> {
    match next_index_of(p, ' ', 0) {
        Some(k) => Some((p.subrange(0, k), p.subrange(k + 1, p.len() as int))),
        None => None,
    }
}

/// The `(prefix, suffix)` pairs of the phrases that hold a space, in order.
pub open spec fn phrase_pairs(ps: Seq<Seq<char>>) -> Seq<(Seq<char>, Seq<char>)>
    decreases ps.len(),
{
    if ps.len() == 0 {
        seq![]
    } else {
        let prev = phrase_pairs(ps.drop_last());
        match split_at_space(ps.last()) {
            Some(pair) => prev.push(pair),
            None => prev,
        }
    }
}

/// The quoted phrases of `content` that hold a space, each split at its first
/// space into a prefix and a suffix.
pub fn parse_combine_phrases(content: &[char]) -> (r: Vec<(String, String)>)
    ensures
        r.deep_view() == phrase_pairs(quoted_list(content@)),
{
    let phrases = parse_quoted_list(content);
    let ghost ps = phrases.deep_view();
    let mut out: Vec<(String, String)> = Vec::new();
    let mut i: usize = 0;
    while i < phrases.len()
        invariant
            i <= phrases@.len(),
            ps == phrases.deep_view(),
            out.deep_view() == phrase_pairs(ps.subrange(0, i as int)),
        decreases phrases@.len() - i,
    {
        let ghost before = out.deep_view();
        assert(ps.subrange(0, i + 1).drop_last() =~= ps.subrange(0, i as int));
        assert(ps[i as int] == phrases@[i as int]@);
        let p = chars_of(phrases[i].as_str());
        match next_index_of_exec(p.as_slice(), ' ', 0) {
            Some(k) => {
                assert(k < p.len());
                let first = string_of_range(p.as_slice(), 0, k);
                let second = string_of_range(p.as_slice(), k + 1, p.len());
                out.push((first, second));
                assert(out.deep_view() =~= before.push((p@.subrange(0, k as int), p@.subrange(k + 1, p@.len() as int))));
            },
            None => {},
        }
        i = i + 1;
    }
    assert(ps.subrange(0, i as int) =~= ps);
    out
}

/// `s` without its leading and trailing white space, as `str::trim` gives it:
/// the part from the first to the last non-white character.
#[verifier::opaque]
pub open spec fn trim(s: Seq<char>) -> Seq<char> {
    if exists|k: int| 0 <= k < s.len() && !is_white(#[trigger] s[k]) {
        let a = choose|a: int|
            0 <= a < s.len() && !is_white(s[a]) && forall|k: int| 0 <= k < a ==> is_white(#[trigger] s[k]);
        let b = choose|b: int|
            a <= b < s.len() && !is_white(s[b]) && forall|k: int| b < k < s.len() ==> is_white(#[trigger] s[k]);
        s.subrange(a, b + 1)
    } else {
        seq![]
    }
}

/// The part of `cs` between leading and trailing white space.
pub fn trim_exec(cs: &[char]) -> (r: (usize, usize))
    ensures
        r.0 <= r.1 <= cs@.len(),
        cs@.subrange(r.0 as int, r.1 as int) == trim(cs@),
{
    let n = cs.len();
    let mut a: usize = 0;
    while a < n && is_white_exec(cs[a])
        invariant
            a <= n == cs@.len(),
            forall|k: int| 0 <= k < a ==> is_white(#[trigger] cs@[k]),
        decreases n - a,
    {
        a = a + 1;
    }
    if a == n {
        reveal(trim);
        assert(cs@.subrange(a as int, a as int) =~= trim(cs@));
        return (a, a);
    }
    let mut b: usize = n - 1;
    while b > a && is_white_exec(cs[b])
        invariant
            a <= b < n == cs@.len(),
            !is_white(cs@[a as int]),
            forall|k: int| b < k < n ==> is_white(#[trigger] cs@[k]),
        decreases b - a,
    {
        b = b - 1;
    }
    proof {
        reveal(trim);
        let s = cs@;
        assert(!is_white(s[b as int]));
        let a2 = choose|a2: int|
            0 <= a2 < s.len() && !is_white(s[a2]) && forall|k: int| 0 <= k < a2 ==> is_white(#[trigger] s[k]);
        assert(a2 == a) by {
            if a2 < a {
                assert(is_white(s[a2]));
            }
            if a2 > a {
                assert(is_white(s[a as int]));
            }
        }
        let b2 = choose|b2: int|
            a2 <= b2 < s.len() && !is_white(s[b2]) && forall|k: int| b2 < k < s.len() ==> is_white(#[trigger] s[k]);
        assert(b2 == b) by {
            if b2 < b {
                assert(is_white(s[b as int]));
            }
            if b2 > b {
                assert(is_white(s[b2]));
            }
        }
    }
    (a, b + 1)
}

pub open spec fn key_skip() -> Seq<char> {
    seq!['S', 'K', 'I', 'P', ':']
}

pub open spec fn key_combine() -> Seq<char> {
    seq!['C', 'O', 'M', 'B', 'I', 'N', 'E', ':']
}

pub open spec fn key_end() -> Seq<char> {
    seq!['E', 'N', 'D', ':']
}

pub open spec fn key_insert() -> Seq<char> {
    seq!['I', 'N', 'S', 'E', 'R', 'T', ':']
}

pub open spec fn key_split() -> Seq<char> {
    seq!['S', 'P', 'L', 'I', 'T', ':']
}

/// What one trimmed line does to the configuration read so far: a known key
/// replaces its list with the line's quoted items; any other line is ignored.
pub open spec fn apply_line(c: ConfigView, l: Seq<char>) -> ConfigView {
    if starts_with(l, key_skip()) {
        ConfigView { skip_words: quoted_list(l.skip(5)), ..c }
    } else if starts_with(l, key_combine()) {
        ConfigView { combine_phrases: phrase_pairs(quoted_list(l.skip(8))), ..c }
    } else if starts_with(l, key_end()) {
        ConfigView { end_words: quoted_list(l.skip(4)), ..c }
    } else if starts_with(l, key_insert()) {
        ConfigView { insert_phrases: phrase_pairs(quoted_list(l.skip(7))), ..c }
    } else if starts_with(l, key_split()) {
        ConfigView { split_words: quoted_list(l.skip(6)), ..c }
    } else {
        c
    }
}

/// The configuration that the lines give, read in order.
pub open spec fn config_of_lines(ls: Seq<Seq<char>>) -> ConfigView
    decreases ls.len(),
{
    if ls.len() == 0 {
        empty_config()
    } else {
        apply_line(config_of_lines(ls.drop_last()), trim(ls.last()))
    }
}

/// The configuration that a configuration text gives.
pub open spec fn config_spec(content: Seq<char>) -> ConfigView {
    config_of_lines(lines(content))
}

/// The settings compiled into the library, used where no file is named.
pub const EMBEDDED_CONFIG: &'static str = "SKIP: \"[Music]\" \"[Applause]\"\n";

impl Config {
    /// A configuration with every list empty.
    pub fn empty() -> (r: Config)
        ensures
            r@ == empty_config(),
    {
        let r = Config {
            skip_words: Vec::new(),
            combine_phrases: Vec::new(),
            end_words: Vec::new(),
            insert_phrases: Vec::new(),
            split_words: Vec::new(),
        };
        assert(r.skip_words.deep_view() =~= seq![]);
        assert(r.combine_phrases.deep_view() =~= seq![]);
        assert(r.end_words.deep_view() =~= seq![]);
        assert(r.insert_phrases.deep_view() =~= seq![]);
        assert(r.split_words.deep_view() =~= seq![]);
        r
    }

    /// Applies one trimmed line of configuration text.
    fn apply_line_exec(&mut self, t: &Vec<char>)
        ensures
            final(self)@ == apply_line(old(self)@, t@),
    {
        let ks = ['S', 'K', 'I', 'P', ':'];
        let kc = ['C', 'O', 'M', 'B', 'I', 'N', 'E', ':'];
        let ke = ['E', 'N', 'D', ':'];
        let ki = ['I', 'N', 'S', 'E', 'R', 'T', ':'];
        let kp = ['S', 'P', 'L', 'I', 'T', ':'];
        assert(ks@ =~= key_skip());
        assert(kc@ =~= key_combine());
        assert(ke@ =~= key_end());
        assert(ki@ =~= key_insert());
        assert(kp@ =~= key_split());
        if starts_with_exec(t.as_slice(), &ks) {
            self.skip_words = parse_quoted_list(skip_chars(t, 5).as_slice());
        } else if starts_with_exec(t.as_slice(), &kc) {
            self.combine_phrases = parse_combine_phrases(skip_chars(t, 8).as_slice());
        } else if starts_with_exec(t.as_slice(), &ke) {
            self.end_words = parse_quoted_list(skip_chars(t, 4).as_slice());
        } else if starts_with_exec(t.as_slice(), &ki) {
            self.insert_phrases = parse_combine_phrases(skip_chars(t, 7).as_slice());
        } else if starts_with_exec(t.as_slice(), &kp) {
            self.split_words = parse_quoted_list(skip_chars(t, 6).as_slice());
        }
    }

    /// Reads the configuration text: for each line (trimmed) that starts with
    /// a known key, that key's list becomes the line's quoted items.
    pub fn from_content(content: &str) -> (r: Config)
        ensures
            r@ == config_spec(content@),
    {
        let mut config = Config::empty();
        let cs = chars_of(content);
        let ls = lines_exec(cs.as_slice());
        let ghost lv = ls.deep_view();
        let mut i: usize = 0;
        while i < ls.len()
            invariant
                i <= ls@.len(),
                lv == ls.deep_view(),
                lv == lines(content@),
                config@ == config_of_lines(lv.subrange(0, i as int)),
            decreases ls@.len() - i,
        {
            assert(lv.subrange(0, i + 1).drop_last() =~= lv.subrange(0, i as int));
            assert(lv[i as int] == ls@[i as int]@);
            let t = trimmed(ls[i].as_slice());
            config.apply_line_exec(&t);
            i = i + 1;
        }
        assert(lv.subrange(0, i as int) =~= lv);
        config
    }

    /// The configuration compiled into the library.
    pub fn from_embedded() -> (r: Config)
        ensures
            r@ == config_spec(EMBEDDED_CONFIG@),
    {
        Config::from_content(EMBEDDED_CONFIG)
    }
}

/// The line without its leading and trailing white space.
fn trimmed(line: &[char]) -> (r: Vec<char>)
    ensures
        r@ == trim(line@),
{
    let (a, b) = trim_exec(line);
    let mut t: Vec<char> = Vec::new();
    let mut k: usize = a;
    while k < b
        invariant
            a <= k <= b <= line@.len(),
            t@ == line@.subrange(a as int, k as int),
        decreases b - k,
    {
        t.push(line[k]);
        k = k + 1;
        assert(t@ =~= line@.subrange(a as int, k as int));
    }
    t
}

/// The characters of `t` from position `from` on.
fn skip_chars(t: &Vec<char>, from: usize) -> (r: Vec<char>)
    requires
        from <= t@.len(),
    ensures
        r@ == t@.skip(from as int),
{
    let mut r: Vec<char> = Vec::new();
    let mut k: usize = from;
    while k < t.len()
        invariant
            from <= k <= t@.len(),
            r@ == t@.subrange(from as int, k as int),
        decreases t@.len() - k,
    {
        r.push(t[k]);
        k = k + 1;
        assert(r@ =~= t@.subrange(from as int, k as int));
    }
    assert(r@ =~= t@.skip(from as int));
    r
}

} // verus!
