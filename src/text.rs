//! Character-level helpers over strings, stated on their `Seq<char>` views.
use vstd::prelude::*;

verus! {

/// What `str::to_lowercase` makes of a sequence of characters.
pub uninterp spec fn lower_of(s: Seq<char>) -> Seq<char>;

/// Relies on `str::to_lowercase`: the result depends on the characters alone,
/// and the empty string stays empty.
#[verifier::external_body]
pub(crate) fn lowercase(s: &str) -> (r: String)
    ensures
        r@ == lower_of(s@),
        s@.len() == 0 ==> r@.len() == 0,
{
    s.to_lowercase()
}

/// `String::push` appends one character.
pub assume_specification[ String::push ](s: &mut String, ch: char)
    ensures
        final(s)@ == old(s)@.push(ch),
;

pub open spec fn starts_with(t: Seq<char>, w: Seq<char>) -> bool {
    w.len() <= t.len() && t.subrange(0, w.len() as int) == w
}

pub open spec fn ends_with(t: Seq<char>, w: Seq<char>) -> bool {
    w.len() <= t.len() && t.subrange(t.len() - w.len(), t.len() as int) == w
}

/// `w` occurs in `t` starting at position `at`.
pub open spec fn occurs_at(t: Seq<char>, w: Seq<char>, at: int) -> bool {
    0 <= at && at + w.len() <= t.len() && t.subrange(at, at + w.len()) == w
}

pub open spec fn contains(t: Seq<char>, w: Seq<char>) -> bool {
    exists|at: int| occurs_at(t, w, at)
}

/// The characters of a string, in order.
pub fn chars_of(s: &str) -> (r: Vec<char>)
    ensures
        r@ == s@,
{
    let mut r: Vec<char> = Vec::new();
    for c in it: s.chars()
        invariant
            r@ == it.history(),
    {
        r.push(c);
    }
    r
}

/// A string holding exactly the given characters.
pub fn string_of(cs: &[char]) -> (r: String)
    ensures
        r@ == cs@,
{
    let mut r = String::new();
    let mut i: usize = 0;
    while i < cs.len()
        invariant
            i <= cs@.len(),
            r@ == cs@.subrange(0, i as int),
        decreases cs@.len() - i,
    {
        r.push(cs[i]);
        i = i + 1;
        assert(r@ =~= cs@.subrange(0, i as int));
    }
    assert(r@ =~= cs@);
    r
}

/// Whether `w` occurs in `t` at position `at`.
pub fn occurs_at_exec(t: &[char], w: &[char], at: usize) -> (r: bool)
    ensures
        r == occurs_at(t@, w@, at as int),
{
    if at > t.len() || w.len() > t.len() - at {
        return false;
    }
    let tl = t.len();
    let mut k: usize = 0;
    while k < w.len()
        invariant
            tl == t@.len(),
            at + w@.len() <= t@.len(),
            k <= w@.len(),
            forall|j: int| 0 <= j < k ==> t@[at + j] == w@[j],
        decreases w@.len() - k,
    {
        assert(at + k < t@.len());
        if t[at + k] != w[k] {
            assert(t@.subrange(at as int, at + w@.len())[k as int] != w@[k as int]);
            return false;
        }
        k = k + 1;
    }
    assert(t@.subrange(at as int, at + w@.len()) =~= w@);
    true
}

pub fn starts_with_exec(t: &[char], w: &[char]) -> (r: bool)
    ensures
        r == starts_with(t@, w@),
{
    occurs_at_exec(t, w, 0)
}

pub fn ends_with_exec(t: &[char], w: &[char]) -> (r: bool)
    ensures
        r == ends_with(t@, w@),
{
    if w.len() > t.len() {
        return false;
    }
    occurs_at_exec(t, w, t.len() - w.len())
}

pub fn contains_exec(t: &[char], w: &[char]) -> (r: bool)
    ensures
        r == contains(t@, w@),
{
    if w.len() > t.len() {
        return false;
    }
    let last = t.len() - w.len();
    let mut at: usize = 0;
    loop
        invariant
            last == t@.len() - w@.len(),
            at <= last,
            forall|j: int| 0 <= j < at ==> !occurs_at(t@, w@, j),
        decreases last - at,
    {
        if occurs_at_exec(t, w, at) {
            return true;
        }
        if at == last {
            return false;
        }
        at = at + 1;
    }
}

/// Appends the characters of `s` to `out`.
pub fn push_all(out: &mut Vec<char>, s: &[char])
    ensures
        final(out)@ == old(out)@ + s@,
{
    let ghost base = out@;
    let mut k: usize = 0;
    while k < s.len()
        invariant
            k <= s@.len(),
            out@ == base + s@.subrange(0, k as int),
        decreases s@.len() - k,
    {
        out.push(s[k]);
        k = k + 1;
        assert(out@ =~= base + s@.subrange(0, k as int));
    }
    assert(s@.subrange(0, k as int) =~= s@);
}

/// The lower-case form of a sequence of characters.
pub fn lower_chars(cs: &[char]) -> (r: Vec<char>)
    ensures
        r@ == lower_of(cs@),
{
    let s = string_of(cs);
    let l = lowercase(s.as_str());
    chars_of(l.as_str())
}

/// A string holding the characters of `cs` from `from` up to `to`.
pub fn string_of_range(cs: &[char], from: usize, to: usize) -> (r: String)
    requires
        from <= to <= cs@.len(),
    ensures
        r@ == cs@.subrange(from as int, to as int),
{
    let mut r = String::new();
    let mut i: usize = from;
    while i < to
        invariant
            from <= i <= to <= cs@.len(),
            r@ == cs@.subrange(from as int, i as int),
        decreases to - i,
    {
        r.push(cs[i]);
        i = i + 1;
        assert(r@ =~= cs@.subrange(from as int, i as int));
    }
    r
}

} // verus!
