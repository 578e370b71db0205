//! Policy expressions: the `Rule` tree, its mathematical view `Term`, the
//! evaluation context, and the evaluator.
use crate::literal::{classify, literal_kind, Literal};
use crate::text::{chars_of, find_char, first_of, lemma_split_len, split, string_of};
use vstd::prelude::*;

verus! {

/// A policy expression, and also the value that evaluating one produces.
///
/// The head variants (`If`, `And`, `Or`, `Eq`, `In`, `List`) hold the keyword
/// they were written with and only stand first in a call form. A `Float`
/// holds the literal as it was written; two floats are equal when written
/// alike.
#[derive(Debug)]
pub enum Rule {
    String(String),
    Bool(bool),
    Integer(i32),
    Float(String),
    If(String),
    And(String),
    Or(String),
    Eq(String),
    In(String),
    List(String),
    Tuple(Vec<Rule>),
}

/// The mathematical value of a `Rule`.
pub enum Term {
    String(Seq<char>),
    Bool(bool),
    Integer(i32),
    Float(Seq<char>),
    If(Seq<char>),
    And(Seq<char>),
    Or(Seq<char>),
    Eq(Seq<char>),
    In(Seq<char>),
    List(Seq<char>),
    Tuple(Seq<Term>),
}

pub open spec fn term_of(r: Rule) -> Term
    decreases r,
{
    match r {
        Rule::String(s) => Term::String(s@),
        Rule::Bool(b) => Term::Bool(b),
        Rule::Integer(i) => Term::Integer(i),
        Rule::Float(s) => Term::Float(s@),
        Rule::If(s) => Term::If(s@),
        Rule::And(s) => Term::And(s@),
        Rule::Or(s) => Term::Or(s@),
        Rule::Eq(s) => Term::Eq(s@),
        Rule::In(s) => Term::In(s@),
        Rule::List(s) => Term::List(s@),
        Rule::Tuple(cs) => Term::Tuple(terms_of(cs@)),
    }
}

pub open spec fn terms_of(s: Seq<Rule>) -> Seq<Term>
    decreases s,
{
    if s.len() == 0 {
        Seq::empty()
    } else {
        terms_of(s.drop_last()).push(term_of(s.last()))
    }
}

pub proof fn lemma_terms_of(s: Seq<Rule>)
    ensures
        terms_of(s).len() == s.len(),
        forall|i: int| 0 <= i < s.len() ==> #[trigger] terms_of(s)[i] == term_of(s[i]),
    decreases s.len(),
{
    if s.len() > 0 {
        lemma_terms_of(s.drop_last());
    }
}

impl View for Rule {
    type V = Term;

    open spec fn view(&self) -> Term {
        term_of(*self)
    }
}

/// Errors of parsing and evaluating rules.
#[derive(Debug)]
pub enum Error {
    CannotParse(String),
    CannotParseAs(Rule, String),
    CannotCompare(Rule, Rule),
    InvalidIfStatement(Rule),
    InvalidIfCondition(Rule),
    InvalidEqStatement(Rule),
    InvalidOrStatement(Rule),
    InvalidAndStatement(Rule),
    InvalidInStatement(Rule),
    KeyNotInContext(String),
}

/// The mathematical value of an `Error`.
pub enum Fault {
    CannotParse(Seq<char>),
    CannotParseAs(Term, Seq<char>),
    CannotCompare(Term, Term),
    InvalidIfStatement(Term),
    InvalidIfCondition(Term),
    InvalidEqStatement(Term),
    InvalidOrStatement(Term),
    InvalidAndStatement(Term),
    InvalidInStatement(Term),
    KeyNotInContext(Seq<char>),
}

impl View for Error {
    type V = Fault;

    open spec fn view(&self) -> Fault {
        match self {
            Error::CannotParse(s) => Fault::CannotParse(s@),
            Error::CannotParseAs(r, s) => Fault::CannotParseAs(r@, s@),
            Error::CannotCompare(l, r) => Fault::CannotCompare(l@, r@),
            Error::InvalidIfStatement(r) => Fault::InvalidIfStatement(r@),
            Error::InvalidIfCondition(r) => Fault::InvalidIfCondition(r@),
            Error::InvalidEqStatement(r) => Fault::InvalidEqStatement(r@),
            Error::InvalidOrStatement(r) => Fault::InvalidOrStatement(r@),
            Error::InvalidAndStatement(r) => Fault::InvalidAndStatement(r@),
            Error::InvalidInStatement(r) => Fault::InvalidInStatement(r@),
            Error::KeyNotInContext(s) => Fault::KeyNotInContext(s@),
        }
    }
}

/// The mathematical value of a result of evaluation.
pub open spec fn outcome(r: Result<Rule, Error>) -> Result<Term, Fault> {
    match r {
        Ok(v) => Ok(v@),
        Err(e) => Err(e@),
    }
}

/// A deep copy of `r`.
pub fn copy_rule(r: &Rule) -> (c: Rule)
    ensures
        c@ == r@,
    decreases r,
{
    match r {
        Rule::String(s) => Rule::String(s.clone()),
        Rule::Bool(b) => Rule::Bool(*b),
        Rule::Integer(i) => Rule::Integer(*i),
        Rule::Float(s) => Rule::Float(s.clone()),
        Rule::If(s) => Rule::If(s.clone()),
        Rule::And(s) => Rule::And(s.clone()),
        Rule::Or(s) => Rule::Or(s.clone()),
        Rule::Eq(s) => Rule::Eq(s.clone()),
        Rule::In(s) => Rule::In(s.clone()),
        Rule::List(s) => Rule::List(s.clone()),
        Rule::Tuple(cs) => {
            let mut out: Vec<Rule> = Vec::new();
            let mut i: usize = 0;
            while i < cs.len()
                invariant
                    *r == Rule::Tuple(*cs),
                    i <= cs@.len(),
                    terms_of(out@) == terms_of(cs@.subrange(0, i as int)),
                decreases cs@.len() - i,
            {
                proof {
                    assert(decreases_to!(*cs => cs[i as int]));
                    assert(decreases_to!(*r => (*r)->Tuple_0));
                    assert(decreases_to!(*r => cs[i as int]));
                }
                let c = copy_rule(&cs[i]);
                proof {
                    assert(out@.push(c).drop_last() =~= out@);
                    assert(cs@.subrange(0, i + 1).drop_last() =~= cs@.subrange(0, i as int));
                }
                out.push(c);
                i = i + 1;
            }
            assert(cs@.subrange(0, cs@.len() as int) =~= cs@);
            Rule::Tuple(out)
        },
    }
}

/// Whether `a` and `b` are the same value.
pub fn same_rule(a: &Rule, b: &Rule) -> (r: bool)
    ensures
        r == (a@ == b@),
    decreases a,
{
    match (a, b) {
        (Rule::String(x), Rule::String(y)) => x.eq(y),
        (Rule::Bool(x), Rule::Bool(y)) => *x == *y,
        (Rule::Integer(x), Rule::Integer(y)) => *x == *y,
        (Rule::Float(x), Rule::Float(y)) => x.eq(y),
        (Rule::If(x), Rule::If(y)) => x.eq(y),
        (Rule::And(x), Rule::And(y)) => x.eq(y),
        (Rule::Or(x), Rule::Or(y)) => x.eq(y),
        (Rule::Eq(x), Rule::Eq(y)) => x.eq(y),
        (Rule::In(x), Rule::In(y)) => x.eq(y),
        (Rule::List(x), Rule::List(y)) => x.eq(y),
        (Rule::Tuple(xs), Rule::Tuple(ys)) => {
            proof {
                lemma_terms_of(xs@);
                lemma_terms_of(ys@);
            }
            if xs.len() != ys.len() {
                return false;
            }
            let mut i: usize = 0;
            while i < xs.len()
                invariant
                    *a == Rule::Tuple(*xs),
                    *b == Rule::Tuple(*ys),
                    i <= xs@.len() == ys@.len(),
                    terms_of(xs@).len() == xs@.len(),
                    terms_of(ys@).len() == ys@.len(),
                    forall|k: int| 0 <= k < xs@.len() ==> #[trigger] terms_of(xs@)[k] == term_of(xs@[k]),
                    forall|k: int| 0 <= k < ys@.len() ==> #[trigger] terms_of(ys@)[k] == term_of(ys@[k]),
                    forall|k: int| 0 <= k < i ==> terms_of(xs@)[k] == #[trigger] terms_of(ys@)[k],
                decreases xs@.len() - i,
            {
                proof {
                    assert(decreases_to!(*xs => xs[i as int]));
                    assert(decreases_to!(*a => (*a)->Tuple_0));
                    assert(decreases_to!(*a => xs[i as int]));
                }
                if !same_rule(&xs[i], &ys[i]) {
                    assert(terms_of(xs@)[i as int] != terms_of(ys@)[i as int]);
                    return false;
                }
                i = i + 1;
            }
            assert(terms_of(xs@) =~= terms_of(ys@));
            true
        },
        _ => false,
    }
}

impl PartialEq for Rule {
    fn eq(&self, other: &Rule) -> bool {
        same_rule(self, other)
    }
}

impl vstd::std_specs::cmp::PartialEqSpecImpl for Rule {
    open spec fn obeys_eq_spec() -> bool {
        true
    }

    open spec fn eq_spec(&self, other: &Rule) -> bool {
        self@ == other@
    }
}

impl PartialEq for Error {
    fn eq(&self, other: &Error) -> bool {
        match (self, other) {
            (Error::CannotParse(x), Error::CannotParse(y)) => x.eq(y),
            (Error::CannotParseAs(r, x), Error::CannotParseAs(q, y)) => same_rule(r, q) && x.eq(y),
            (Error::CannotCompare(l, r), Error::CannotCompare(m, q)) => same_rule(l, m)
                && same_rule(r, q),
            (Error::InvalidIfStatement(r), Error::InvalidIfStatement(q)) => same_rule(r, q),
            (Error::InvalidIfCondition(r), Error::InvalidIfCondition(q)) => same_rule(r, q),
            (Error::InvalidEqStatement(r), Error::InvalidEqStatement(q)) => same_rule(r, q),
            (Error::InvalidOrStatement(r), Error::InvalidOrStatement(q)) => same_rule(r, q),
            (Error::InvalidAndStatement(r), Error::InvalidAndStatement(q)) => same_rule(r, q),
            (Error::InvalidInStatement(r), Error::InvalidInStatement(q)) => same_rule(r, q),
            (Error::KeyNotInContext(x), Error::KeyNotInContext(y)) => x.eq(y),
            _ => false,
        }
    }
}

impl vstd::std_specs::cmp::PartialEqSpecImpl for Error {
    open spec fn obeys_eq_spec() -> bool {
        true
    }

    open spec fn eq_spec(&self, other: &Error) -> bool {
        self@ == other@
    }
}

/// The scalar that the text `s` writes: an integer, a floating-point number
/// or a boolean, tried in that order, else the text itself.
pub open spec fn literal_term(s: Seq<char>) -> Term {
    match literal_kind(s) {
        Literal::Integer(i) => Term::Integer(i),
        Literal::Float => Term::Float(s),
        Literal::Bool(b) => Term::Bool(b),
        Literal::Text => Term::String(s),
    }
}

pub(crate) fn literal_rule(s: &str) -> (r: Rule)
    ensures
        r@ == literal_term(s@),
{
    match classify(s) {
        Literal::Integer(i) => Rule::Integer(i),
        Literal::Float => Rule::Float(s.to_owned()),
        Literal::Bool(b) => Rule::Bool(b),
        Literal::Text => Rule::String(s.to_owned()),
    }
}

impl Rule {
    /// The scalar that `s` writes; text that is no number nor boolean is a
    /// string. This never fails.
    pub fn from_literal(s: &str) -> (r: Result<Rule, Error>)
        ensures
            r matches Ok(v) && v@ == literal_term(s@),
    {
        Ok(literal_rule(s))
    }
}


/// Attribute bindings, looked up by first match in the order given.
#[derive(Debug)]
pub struct Context(pub Vec<(String, Rule)>);

pub open spec fn bindings_view(v: Seq<(String, Rule)>) -> Seq<(Seq<char>, Term)> {
    Seq::new(v.len(), |i: int| (v[i].0@, v[i].1@))
}

impl View for Context {
    type V = Seq<(Seq<char>, Term)>;

    open spec fn view(&self) -> Seq<(Seq<char>, Term)> {
        bindings_view(self.0@)
    }
}

/// The value of the first binding of `key`.
pub open spec fn lookup(c: Seq<(Seq<char>, Term)>, key: Seq<char>) -> Option<Term>
    decreases c.len(),
{
    if c.len() == 0 {
        None
    } else if c[0].0 == key {
        Some(c[0].1)
    } else {
        lookup(c.skip(1), key)
    }
}

/// The binding that the piece `p` of a context text writes: `key:value`,
/// split at the first `:`.
pub open spec fn binding_of(p: Seq<char>) -> Option<(Seq<char>, Term)> {
    let k = first_of(p, ':');
    if k < p.len() {
        Some((p.take(k), literal_term(p.skip(k + 1))))
    } else {
        None
    }
}

/// The bindings that the pieces `ps` write; empty pieces are skipped, and a
/// piece without `:` spoils the whole.
pub open spec fn bindings_of(ps: Seq<Seq<char>>) -> Option<Seq<(Seq<char>, Term)>>
    decreases ps.len(),
{
    if ps.len() == 0 {
        Some(Seq::empty())
    } else {
        match bindings_of(ps.drop_last()) {
            None => None,
            Some(b) => if ps.last().len() == 0 {
                Some(b)
            } else {
                match binding_of(ps.last()) {
                    None => None,
                    Some(x) => Some(b.push(x)),
                }
            },
        }
    }
}

/// The bindings that a context text writes: `key:value` pieces separated by
/// commas.
pub open spec fn context_of(s: Seq<char>) -> Option<Seq<(Seq<char>, Term)>> {
    bindings_of(split(s, ','))
}

impl PartialEq for Context {
    fn eq(&self, other: &Context) -> bool {
        let n = self.0.len();
        if n != other.0.len() {
            assert(self@.len() != other@.len());
            return false;
        }
        let mut i: usize = 0;
        while i < n
            invariant
                n == self.0@.len() == other.0@.len(),
                i <= n,
                forall|k: int| 0 <= k < i ==> #[trigger] self@[k] == other@[k],
            decreases n - i,
        {
            if !(self.0[i].0.eq(&other.0[i].0) && same_rule(&self.0[i].1, &other.0[i].1)) {
                assert(self@[i as int] != other@[i as int]);
                return false;
            }
            i = i + 1;
        }
        assert(self@ =~= other@);
        true
    }
}

impl vstd::std_specs::cmp::PartialEqSpecImpl for Context {
    open spec fn obeys_eq_spec() -> bool {
        true
    }

    open spec fn eq_spec(&self, other: &Context) -> bool {
        self@ == other@
    }
}

/// The binding that `cs[from..to]` writes.
fn read_binding(cs: &Vec<char>, from: usize, to: usize) -> (r: Option<(String, Rule)>)
    requires
        from <= to <= cs@.len(),
    ensures
        match binding_of(cs@.subrange(from as int, to as int)) {
            Some(b) => r matches Some(x) && x.0@ == b.0 && x.1@ == b.1,
            None => r is None,
        },
{
    let ghost p = cs@.subrange(from as int, to as int);
    let k = find_char(cs, from, to, ':');
    if k == to - from {
        return None;
    }
    let key = string_of(cs, from, from + k);
    let text = string_of(cs, from + k + 1, to);
    let value = literal_rule(text.as_str());
    assert(p.take(k as int) =~= cs@.subrange(from as int, from + k));
    assert(p.skip(k + 1) =~= cs@.subrange(from + k + 1, to as int));
    Some((key, value))
}

/// Adds to `out` the binding that the piece `cs[from..to]` writes, if it
/// is not empty; `false` where it writes none.
fn add_piece(out: &mut Vec<(String, Rule)>, cs: &Vec<char>, from: usize, to: usize) -> (ok: bool)
    requires
        from <= to <= cs@.len(),
    ensures
        from == to ==> ok && final(out)@ == old(out)@,
        from < to ==> match binding_of(cs@.subrange(from as int, to as int)) {
            None => !ok,
            Some(b) => ok && bindings_view(final(out)@) == bindings_view(old(out)@).push(b),
        },
{
    if from == to {
        return true;
    }
    match read_binding(cs, from, to) {
        None => false,
        Some(b) => {
            let ghost before = out@;
            out.push(b);
            assert(bindings_view(out@) =~= bindings_view(before).push((b.0@, b.1@)));
            true
        },
    }
}

impl Context {
    /// Reads `key:value` pieces separated by commas; empty pieces are
    /// skipped. A value is read as a scalar literal. A non-empty piece
    /// without `:` fails with `CannotParse` of the whole text.
    pub fn from_str(s: &str) -> (r: Result<Context, Error>)
        ensures
            match context_of(s@) {
                Some(b) => r matches Ok(c) && c@ == b,
                None => r matches Err(e) && e@ == Fault::CannotParse(s@),
            },
    {
        let cs = chars_of(s);
        let n = cs.len();
        let mut out: Vec<(String, Rule)> = Vec::new();
        let mut start: usize = 0;
        let mut i: usize = 0;
        proof {
            assert(cs@.take(0) =~= Seq::<char>::empty());
            assert(cs@.subrange(0, 0) =~= Seq::<char>::empty());
        }
        while i < n
            invariant
                n == cs@.len(),
                cs@ == s@,
                start <= i <= n,
                split(cs@.take(i as int), ',').last() == cs@.subrange(start as int, i as int),
                split(cs@.take(i as int), ',').len() >= 1,
                bindings_of(split(cs@.take(i as int), ',').drop_last()) == Some(bindings_view(out@)),
            decreases n - i,
        {
            let ghost before = split(cs@.take(i as int), ',');
            let ghost t = cs@.take(i + 1);
            proof {
                assert(t.drop_last() =~= cs@.take(i as int));
                assert(t.last() == cs@[i as int]);
            }
            if cs[i] == ',' {
                proof {
                    assert(before.drop_last().push(before.last()) =~= before);
                }
                if !add_piece(&mut out, &cs, start, i) {
                    proof {
                        assert(split(t, ',').drop_last() =~= before);
                        lemma_completed_none(cs@, i + 1);
                    }
                    return Err(Error::CannotParse(s.to_owned()));
                }
                proof {
                    assert(split(t, ',').drop_last() =~= before);
                    assert(cs@.subrange(i + 1, i + 1) =~= Seq::<char>::empty());
                }
                start = i + 1;
            } else {
                proof {
                    assert(split(t, ',').drop_last() =~= before.drop_last());
                    assert(cs@.subrange(start as int, i + 1) =~= cs@.subrange(start as int, i as int).push(
                        cs@[i as int],
                    ));
                }
            }
            i = i + 1;
        }
        proof {
            assert(cs@.take(n as int) =~= s@);
            let d = split(s@, ',');
            assert(d.drop_last().push(d.last()) =~= d);
        }
        if !add_piece(&mut out, &cs, start, n) {
            return Err(Error::CannotParse(s.to_owned()));
        }
        Ok(Context(out))
    }

    /// The value of the first binding of `key`; fails with `KeyNotInContext`
    /// where there is none.
    pub fn get(&self, key: &String) -> (r: Result<&Rule, Error>)
        ensures
            match lookup(self@, key@) {
                Some(t) => r matches Ok(v) && v@ == t,
                None => r matches Err(e) && e@ == Fault::KeyNotInContext(key@),
            },
    {
        let n = self.0.len();
        let mut i: usize = 0;
        assert(self@.skip(0) =~= self@);
        while i < n
            invariant
                n == self.0@.len(),
                i <= n,
                lookup(self@, key@) == lookup(self@.skip(i as int), key@),
            decreases n - i,
        {
            assert(self@.skip(i as int)[0] == self@[i as int]);
            if self.0[i].0.eq(key) {
                return Ok(&self.0[i].1);
            }
            assert(self@.skip(i as int).skip(1) =~= self@.skip(i + 1));
            i = i + 1;
        }
        Err(Error::KeyNotInContext(key.clone()))
    }
}

/// Once the completed pieces of a prefix fail, the whole text fails.
proof fn lemma_completed_none(cs: Seq<char>, i: int)
    requires
        0 <= i <= cs.len(),
        bindings_of(split(cs.take(i), ',').drop_last()) is None,
    ensures
        bindings_of(split(cs, ',')) is None,
    decreases cs.len() - i,
{
    lemma_split_len(cs.take(i), ',');
    if i < cs.len() {
        let t = cs.take(i + 1);
        assert(t.drop_last() =~= cs.take(i));
        if t.last() == ',' {
            assert(split(t, ',').drop_last() =~= split(cs.take(i), ','));
        } else {
            assert(split(t, ',').drop_last() =~= split(cs.take(i), ',').drop_last());
        }
        lemma_completed_none(cs, i + 1);
    } else {
        assert(cs.take(i) =~= cs);
    }
}

} // verus!
