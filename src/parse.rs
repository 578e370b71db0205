//! The reader of policy expressions: one left-to-right scan over the text
//! that keeps a stack of open tuples and the token being read.
use crate::literal::{classify, literal_kind, Literal};
use crate::rule::{literal_rule, literal_term, term_of, terms_of, Error, Fault, Rule, Term};
use crate::text::{chars_of, is_space, space, string_of};
use vstd::prelude::*;

verus! {

/// The head of a call form that the word `b` names, if any.
pub open spec fn head_word(b: Seq<char>) -> Option<Term> {
    if b == seq!['i', 'f'] {
        Some(Term::If(b))
    } else if b == seq!['e', 'q'] {
        Some(Term::Eq(b))
    } else if b == seq!['a', 'n', 'd'] {
        Some(Term::And(b))
    } else if b == seq!['o', 'r'] {
        Some(Term::Or(b))
    } else if b == seq!['i', 'n'] {
        Some(Term::In(b))
    } else if b == seq!['l', 'i', 's', 't'] {
        Some(Term::List(b))
    } else {
        None
    }
}

/// The value of the token `b`; `first` tells whether it opens its tuple,
/// where a keyword names a call form.
pub open spec fn token_term(b: Seq<char>, first: bool) -> Term {
    match literal_kind(b) {
        Literal::Text => if first && head_word(b) is Some {
            head_word(b)->Some_0
        } else {
            Term::String(b)
        },
        _ => literal_term(b),
    }
}

/// Ends the token `b`, if any, as the last child of the innermost open
/// tuple; a keyword opens a call form only inside a tuple, never at top
/// level.
pub open spec fn flush(st: Seq<Seq<Term>>, b: Seq<char>) -> Option<Seq<Seq<Term>>> {
    if b.len() == 0 {
        Some(st)
    } else if st.len() == 0 {
        None
    } else {
        Some(
            st.drop_last().push(
                st.last().push(token_term(b, st.len() > 1 && st.last().len() == 0)),
            ),
        )
    }
}

/// Closes the innermost open tuple into its parent.
pub open spec fn close(st: Seq<Seq<Term>>) -> Option<Seq<Seq<Term>>> {
    if st.len() < 2 {
        None
    } else {
        let rest = st.drop_last();
        Some(rest.drop_last().push(rest.last().push(Term::Tuple(st.last()))))
    }
}

/// One character of the scan, from the open tuples and the current token.
pub open spec fn step(st: Seq<Seq<Term>>, b: Seq<char>, c: char) -> Option<
    (Seq<Seq<Term>>, Seq<char>),
> {
    if c == '(' || c == ')' || is_space(c) {
        match flush(st, b) {
            None => None,
            Some(f) => if c == '(' {
                Some((f.push(Seq::empty()), Seq::empty()))
            } else if c == ')' {
                match close(f) {
                    None => None,
                    Some(g) => Some((g, Seq::empty())),
                }
            } else {
                Some((f, Seq::empty()))
            },
        }
    } else {
        Some((st, b.push(c)))
    }
}

/// The state after scanning `s`: the open tuples, outermost first, and the
/// current token.
pub open spec fn scan(s: Seq<char>) -> Option<(Seq<Seq<Term>>, Seq<char>)>
    decreases s.len(),
{
    if s.len() == 0 {
        Some((seq![Seq::empty()], Seq::empty()))
    } else {
        match scan(s.drop_last()) {
            None => None,
            Some(state) => step(state.0, state.1, s.last()),
        }
    }
}

/// The expression that `s` writes: the last one at top level once the
/// current token is ended. The outermost tuple may be left open, and is
/// then closed; a tuple left open inside it makes the text unbalanced.
pub open spec fn parse_term(s: Seq<char>) -> Option<Term> {
    match scan(s) {
        None => None,
        Some(state) => match flush(state.0, state.1) {
            None => None,
            Some(f) => if f.len() == 0 || f.len() > 2 {
                None
            } else {
                let root = if f.len() == 2 {
                    close(f)->Some_0[0]
                } else {
                    f[0]
                };
                if root.len() > 0 {
                    Some(root.last())
                } else {
                    None
                }
            },
        },
    }
}

pub open spec fn frames_view(st: Seq<Vec<Rule>>) -> Seq<Seq<Term>> {
    st.map_values(|f: Vec<Rule>| terms_of(f@))
}

proof fn lemma_scan_none(s: Seq<char>, i: int)
    requires
        0 <= i <= s.len(),
        scan(s.take(i)) is None,
    ensures
        scan(s) is None,
    decreases s.len() - i,
{
    if i < s.len() {
        assert(s.take(i + 1).drop_last() =~= s.take(i));
        lemma_scan_none(s, i + 1);
    } else {
        assert(s.take(i) =~= s);
    }
}

/// The head that the word `cs[from..to]` names, if any.
fn head_rule(cs: &Vec<char>, from: usize, to: usize) -> (r: Option<Rule>)
    requires
        from <= to <= cs@.len(),
    ensures
        match head_word(cs@.subrange(from as int, to as int)) {
            Some(h) => r matches Some(x) && x@ == h,
            None => r is None,
        },
{
    let ghost b = cs@.subrange(from as int, to as int);
    let n = to - from;
    let w = string_of(cs, from, to);
    if n == 2 && cs[from] == 'i' && cs[from + 1] == 'f' {
        assert(b =~= seq!['i', 'f']);
        return Some(Rule::If(w));
    }
    if n == 2 && cs[from] == 'e' && cs[from + 1] == 'q' {
        assert(b =~= seq!['e', 'q']);
        return Some(Rule::Eq(w));
    }
    if n == 3 && cs[from] == 'a' && cs[from + 1] == 'n' && cs[from + 2] == 'd' {
        assert(b =~= seq!['a', 'n', 'd']);
        return Some(Rule::And(w));
    }
    if n == 2 && cs[from] == 'o' && cs[from + 1] == 'r' {
        assert(b =~= seq!['o', 'r']);
        return Some(Rule::Or(w));
    }
    if n == 2 && cs[from] == 'i' && cs[from + 1] == 'n' {
        assert(b =~= seq!['i', 'n']);
        return Some(Rule::In(w));
    }
    if n == 4 && cs[from] == 'l' && cs[from + 1] == 'i' && cs[from + 2] == 's' && cs[from + 3]
        == 't' {
        assert(b =~= seq!['l', 'i', 's', 't']);
        return Some(Rule::List(w));
    }
    assert(b != seq!['i', 'f'] && b != seq!['e', 'q'] && b != seq!['o', 'r'] && b != seq!['i', 'n'])
        by {
        if b.len() == 2 {
            assert(b[0] == cs@[from as int] && b[1] == cs@[from + 1]);
        }
    }
    assert(b != seq!['a', 'n', 'd']) by {
        if b.len() == 3 {
            assert(b[0] == cs@[from as int] && b[1] == cs@[from + 1] && b[2] == cs@[from + 2]);
        }
    }
    assert(b != seq!['l', 'i', 's', 't']) by {
        if b.len() == 4 {
            assert(b[0] == cs@[from as int] && b[1] == cs@[from + 1] && b[2] == cs@[from + 2]
                && b[3] == cs@[from + 3]);
        }
    }
    None
}

/// The value of the token `cs[from..to]`.
fn token_rule(cs: &Vec<char>, from: usize, to: usize, first: bool) -> (r: Rule)
    requires
        from <= to <= cs@.len(),
    ensures
        r@ == token_term(cs@.subrange(from as int, to as int), first),
{
    let text = string_of(cs, from, to);
    match classify(text.as_str()) {
        Literal::Text => {
            if first {
                if let Some(h) = head_rule(cs, from, to) {
                    return h;
                }
            }
            Rule::String(text)
        },
        _ => literal_rule(text.as_str()),
    }
}

/// Ends the token `cs[from..to]`, if any; `false` where no tuple is open.
fn flush_token(st: &mut Vec<Vec<Rule>>, cs: &Vec<char>, from: usize, to: usize) -> (ok: bool)
    requires
        from <= to <= cs@.len(),
    ensures
        match flush(frames_view(old(st)@), cs@.subrange(from as int, to as int)) {
            None => !ok,
            Some(f) => ok && frames_view(final(st)@) == f,
        },
{
    if from == to {
        return true;
    }
    match st.pop() {
        None => false,
        Some(mut top) => {
            let ghost before = top@;
            let t = token_rule(cs, from, to, top.len() == 0 && st.len() > 0);
            proof {
                crate::rule::lemma_terms_of(before);
            }
            top.push(t);
            proof {
                assert(top@.drop_last() =~= before);
            }
            st.push(top);
            proof {
                let o = frames_view(old(st)@);
                assert(frames_view(st@) =~= o.drop_last().push(o.last().push(t@)));
            }
            true
        },
    }
}

/// Closes the innermost open tuple; `false` where it has no parent.
fn close_frame(st: &mut Vec<Vec<Rule>>) -> (ok: bool)
    ensures
        match close(frames_view(old(st)@)) {
            None => !ok,
            Some(g) => ok && frames_view(final(st)@) == g,
        },
{
    if st.len() < 2 {
        return false;
    }
    let ghost o = frames_view(st@);
    let inner = st.pop().unwrap();
    let mut parent = st.pop().unwrap();
    let ghost p0 = parent@;
    let ghost i0 = inner@;
    proof {
        assert(o.last() == terms_of(i0));
        assert(o.drop_last().last() == terms_of(p0));
    }
    parent.push(Rule::Tuple(inner));
    proof {
        assert(parent@.drop_last() =~= p0);
        assert(term_of(parent@.last()) == Term::Tuple(terms_of(i0)));
        assert(terms_of(parent@) == terms_of(p0).push(Term::Tuple(terms_of(i0))));
    }
    st.push(parent);
    proof {
        assert(frames_view(st@) =~= o.drop_last().drop_last().push(
            o.drop_last().last().push(Term::Tuple(o.last())),
        ));
    }
    true
}

/// Reads the expression that `s` writes. Tokens are separated by
/// whitespace and parentheses; a token is a scalar literal, or the keyword
/// of a call form where it opens a tuple. The outermost tuple may be left
/// open at the end. Text that writes no expression, leaves a tuple inside
/// the outermost one open, or closes a tuple that was never
/// opened, fails with `CannotParse` of the whole text.
pub(crate) fn parse_rule(s: &str) -> (r: Result<Rule, Error>)
    ensures
        match parse_term(s@) {
            Some(t) => r matches Ok(v) && v@ == t,
            None => r matches Err(e) && e@ == Fault::CannotParse(s@),
        },
{
    let cs = chars_of(s);
    let n = cs.len();
    let mut st: Vec<Vec<Rule>> = Vec::new();
    let root0: Vec<Rule> = Vec::new();
    assert(terms_of(root0@) =~= Seq::<Term>::empty());
    st.push(root0);
    let mut from: usize = 0;
    let mut i: usize = 0;
    proof {
        assert(cs@.take(0) =~= Seq::<char>::empty());
        assert(frames_view(st@) =~= seq![Seq::<Term>::empty()]);
        assert(cs@.subrange(0, 0) =~= Seq::<char>::empty());
    }
    while i < n
        invariant
            n == cs@.len(),
            cs@ == s@,
            from <= i <= n,
            scan(cs@.take(i as int)) == Some((frames_view(st@), cs@.subrange(from as int, i as int))),
        decreases n - i,
    {
        let c = cs[i];
        proof {
            assert(cs@.take(i + 1).drop_last() =~= cs@.take(i as int));
            assert(cs@.take(i + 1).last() == c);
        }
        if c == '(' || c == ')' || space(c) {
            if !flush_token(&mut st, &cs, from, i) {
                proof {
                    lemma_scan_none(cs@, i + 1);
                }
                return Err(Error::CannotParse(s.to_owned()));
            }
            if c == '(' {
                let ghost f = frames_view(st@);
                let fresh: Vec<Rule> = Vec::new();
                proof {
                    assert(terms_of(fresh@) =~= Seq::<Term>::empty());
                }
                st.push(fresh);
                proof {
                    assert(frames_view(st@) =~= f.push(Seq::empty()));
                }
            } else if c == ')' {
                if !close_frame(&mut st) {
                    proof {
                        lemma_scan_none(cs@, i + 1);
                    }
                    return Err(Error::CannotParse(s.to_owned()));
                }
            }
            proof {
                assert(cs@.subrange(i + 1, i + 1) =~= Seq::<char>::empty());
            }
            from = i + 1;
        } else {
            proof {
                assert(cs@.subrange(from as int, i + 1) =~= cs@.subrange(from as int, i as int).push(c));
            }
        }
        i = i + 1;
    }
    proof {
        assert(cs@.take(n as int) =~= s@);
    }
    if !flush_token(&mut st, &cs, from, n) {
        return Err(Error::CannotParse(s.to_owned()));
    }
    let ghost f = frames_view(st@);
    if st.len() == 0 || st.len() > 2 {
        return Err(Error::CannotParse(s.to_owned()));
    }
    if st.len() == 2 {
        close_frame(&mut st);
        assert(frames_view(st@) == close(f)->Some_0);
        assert(frames_view(st@).len() == 1);
    }
    assert(st@.len() == frames_view(st@).len());
    let ghost top = frames_view(st@)[0];
    let mut root = st.pop().unwrap();
    proof {
        crate::rule::lemma_terms_of(root@);
        assert(terms_of(root@) == top);
    }
    match root.pop() {
        None => Err(Error::CannotParse(s.to_owned())),
        Some(t) => Ok(t),
    }
}

impl Rule {
    /// Reads the expression that `s` writes; see `parse_rule`.
    pub fn from_str(s: &str) -> (r: Result<Rule, Error>)
        ensures
            match parse_term(s@) {
                Some(t) => r matches Ok(v) && v@ == t,
                None => r matches Err(e) && e@ == Fault::CannotParse(s@),
            },
    {
        parse_rule(s)
    }
}

} // verus!
