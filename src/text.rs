//! Character-level helpers shared by the parsers.
use vstd::prelude::*;
use vstd::string::StrSliceExecFns;

verus! {

/// Relies on `String::push`: the character is appended at the end.
#[verifier::external_body]
pub(crate) fn push_char(s: &mut String, c: char)
    ensures
        final(s)@ == old(s)@.push(c),
{
    s.push(c);
}

/// The characters of `s`, in order.
pub(crate) fn chars_of(s: &str) -> (r: Vec<char>)
    ensures
        r@ == s@,
{
    let n = s.unicode_len();
    let mut r: Vec<char> = Vec::new();
    let mut i: usize = 0;
    while i < n
        invariant
            n == s@.len(),
            i <= n,
            r@ == s@.subrange(0, i as int),
        decreases n - i,
    {
        r.push(s.get_char(i));
        i = i + 1;
    }
    assert(r@ =~= s@);
    r
}

/// A fresh string holding `cs[from..to]`.
pub(crate) fn string_of(cs: &Vec<char>, from: usize, to: usize) -> (r: String)
    requires
        from <= to <= cs@.len(),
    ensures
        r@ == cs@.subrange(from as int, to as int),
{
    let mut r = String::new();
    let mut i: usize = from;
    while i < to
        invariant
            from <= i <= to <= cs@.len(),
            r@ == cs@.subrange(from as int, i as int),
        decreases to - i,
    {
        push_char(&mut r, cs[i]);
        i = i + 1;
        assert(r@ =~= cs@.subrange(from as int, i as int));
    }
    r
}

/// Whether `c` separates tokens: an ASCII whitespace character.
pub open spec fn is_space(c: char) -> bool {
    c == ' ' || c == '\t' || c == '\n' || c == '\r' || c == '\x0C'
}

pub(crate) fn space(c: char) -> (r: bool)
    ensures
        r == is_space(c),
{
    c == ' ' || c == '\t' || c == '\n' || c == '\r' || c == '\x0C'
}

/// The pieces of `s` between occurrences of `sep`; no occurrence gives one
/// piece, the empty text gives one empty piece.
pub open spec fn split(s: Seq<char>, sep: char) -> Seq<Seq<char>>
    decreases s.len(),
{
    if s.len() == 0 {
        seq![Seq::empty()]
    } else if s.last() == sep {
        split(s.drop_last(), sep).push(Seq::empty())
    } else {
        let p = split(s.drop_last(), sep);
        p.update(p.len() - 1, p.last().push(s.last()))
    }
}

pub proof fn lemma_split_len(s: Seq<char>, sep: char)
    ensures
        split(s, sep).len() >= 1,
    decreases s.len(),
{
    if s.len() > 0 {
        lemma_split_len(s.drop_last(), sep);
    }
}

/// `k` is the first position of `c` in `p`, or `p.len()` where `c` does not occur.
pub open spec fn first_at(p: Seq<char>, c: char, k: int) -> bool {
    &&& 0 <= k <= p.len()
    &&& k < p.len() ==> p[k] == c
    &&& forall|j: int| 0 <= j < k ==> #[trigger] p[j] != c
}

pub proof fn lemma_first_unique(p: Seq<char>, c: char, k: int, m: int)
    requires
        first_at(p, c, k),
        first_at(p, c, m),
    ensures
        k == m,
{
    if k < m {
        assert(p[k] != c);
    } else if m < k {
        assert(p[m] != c);
    }
}

pub open spec fn first_of(p: Seq<char>, c: char) -> int {
    choose|k: int| first_at(p, c, k)
}

/// The first position of `c` in `cs[from..to]`, relative to `from`, or
/// `to - from` where it does not occur.
pub(crate) fn find_char(cs: &Vec<char>, from: usize, to: usize, c: char) -> (k: usize)
    requires
        from <= to <= cs@.len(),
    ensures
        k == first_of(cs@.subrange(from as int, to as int), c),
        first_at(cs@.subrange(from as int, to as int), c, k as int),
{
    let ghost p = cs@.subrange(from as int, to as int);
    let mut i = from;
    while i < to && cs[i] != c
        invariant
            from <= i <= to <= cs@.len(),
            forall|j: int| from <= j < i ==> #[trigger] cs@[j] != c,
        decreases to - i,
    {
        i = i + 1;
    }
    let k = i - from;
    assert forall|j: int| 0 <= j < k implies #[trigger] p[j] != c by {
        assert(p[j] == cs@[from + j]);
    }
    assert(first_at(p, c, k as int));
    proof {
        lemma_first_unique(p, c, k as int, first_of(p, c));
    }
    k
}

} // verus!
