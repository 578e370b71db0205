//! Evaluation of policy expressions under a context.
use crate::rule::{
    copy_rule, lemma_terms_of, lookup, outcome, same_rule, term_of, terms_of, Context, Error,
    Fault, Rule, Term,
};
use crate::text::{chars_of, string_of};
use vstd::prelude::*;
use vstd::string::StrSliceExecFns;

verus! {

pub open spec fn is_scalar(t: Term) -> bool {
    t is String || t is Bool || t is Integer || t is Float
}

/// `eq` on two values: a boolean where both are scalars of one kind.
pub open spec fn compare(l: Term, r: Term) -> Result<Term, Fault> {
    match (l, r) {
        (Term::String(a), Term::String(b)) => Ok(Term::Bool(a == b)),
        (Term::Integer(a), Term::Integer(b)) => Ok(Term::Bool(a == b)),
        (Term::Float(a), Term::Float(b)) => Ok(Term::Bool(a == b)),
        (Term::Bool(a), Term::Bool(b)) => Ok(Term::Bool(a == b)),
        _ => Err(Fault::CannotCompare(l, r)),
    }
}

/// `and` (`or` where `disjoin`) on two values, which must be booleans.
pub open spec fn connect(l: Term, r: Term, disjoin: bool) -> Result<Term, Fault> {
    match (l, r) {
        (Term::Bool(a), Term::Bool(b)) => Ok(Term::Bool(if disjoin { a || b } else { a && b })),
        _ => Err(Fault::CannotCompare(l, r)),
    }
}

/// The name an attribute reference `$name` refers to: the text without its
/// leading `$` signs.
pub open spec fn reference_name(s: Seq<char>) -> Seq<char>
    decreases s.len(),
{
    if s.len() > 0 && s[0] == '$' {
        reference_name(s.skip(1))
    } else {
        s
    }
}

/// The value of `t` under the bindings `c`.
pub open spec fn eval_term(t: Term, c: Seq<(Seq<char>, Term)>) -> Result<Term, Fault>
    decreases t,
{
    match t {
        Term::Tuple(cs) => if cs.len() == 0 {
            Ok(Term::Tuple(Seq::empty()))
        } else {
            match cs[0] {
                Term::If(_) => if cs.len() != 4 {
                    Err(Fault::InvalidIfStatement(t))
                } else {
                    match eval_term(cs[1], c) {
                        Err(e) => Err(e),
                        Ok(k) => match eval_term(cs[2], c) {
                            Err(e) => Err(e),
                            Ok(a) => match eval_term(cs[3], c) {
                                Err(e) => Err(e),
                                Ok(b) => match k {
                                    Term::Bool(true) => Ok(a),
                                    Term::Bool(false) => Ok(b),
                                    _ => Err(Fault::InvalidIfCondition(k)),
                                },
                            },
                        },
                    }
                },
                Term::Eq(_) => if cs.len() != 3 {
                    Err(Fault::InvalidEqStatement(t))
                } else {
                    match eval_term(cs[1], c) {
                        Err(e) => Err(e),
                        Ok(l) => match eval_term(cs[2], c) {
                            Err(e) => Err(e),
                            Ok(r) => compare(l, r),
                        },
                    }
                },
                Term::And(_) => if cs.len() != 3 {
                    Err(Fault::InvalidAndStatement(t))
                } else {
                    match eval_term(cs[1], c) {
                        Err(e) => Err(e),
                        Ok(l) => match eval_term(cs[2], c) {
                            Err(e) => Err(e),
                            Ok(r) => connect(l, r, false),
                        },
                    }
                },
                Term::Or(_) => if cs.len() != 3 {
                    Err(Fault::InvalidOrStatement(t))
                } else {
                    match eval_term(cs[1], c) {
                        Err(e) => Err(e),
                        Ok(l) => match eval_term(cs[2], c) {
                            Err(e) => Err(e),
                            Ok(r) => connect(l, r, true),
                        },
                    }
                },
                Term::In(_) => if cs.len() != 3 {
                    Err(Fault::InvalidInStatement(t))
                } else {
                    match eval_term(cs[1], c) {
                        Err(e) => Err(e),
                        Ok(l) => match eval_term(cs[2], c) {
                            Err(e) => Err(e),
                            Ok(r) => if is_scalar(l) && r is Tuple {
                                Ok(Term::Bool(r->Tuple_0.contains(l)))
                            } else {
                                Err(Fault::InvalidInStatement(t))
                            },
                        },
                    }
                },
                Term::List(_) => match eval_items(cs.skip(1), c) {
                    Err(e) => Err(e),
                    Ok(vs) => Ok(Term::Tuple(vs)),
                },
                _ => Ok(Term::Tuple(Seq::empty())),
            }
        },
        Term::String(s) => if s.len() > 0 && s[0] == '$' {
            match lookup(c, reference_name(s)) {
                Some(v) => Ok(v),
                None => Ok(Term::String(Seq::empty())),
            }
        } else {
            Ok(t)
        },
        _ => Ok(t),
    }
}

/// The values of `s`, in order; the first failure is the result.
pub open spec fn eval_items(s: Seq<Term>, c: Seq<(Seq<char>, Term)>) -> Result<
    Seq<Term>,
    Fault,
>
    decreases s,
{
    if s.len() == 0 {
        Ok(Seq::empty())
    } else {
        match eval_items(s.drop_last(), c) {
            Err(e) => Err(e),
            Ok(vs) => match eval_term(s.last(), c) {
                Err(e) => Err(e),
                Ok(v) => Ok(vs.push(v)),
            },
        }
    }
}

/// Once a prefix fails, the whole fails alike.
proof fn lemma_items_prefix_err(s: Seq<Term>, n: int, c: Seq<(Seq<char>, Term)>)
    requires
        0 <= n <= s.len(),
        eval_items(s.take(n), c) is Err,
    ensures
        eval_items(s, c) == eval_items(s.take(n), c),
    decreases s.len() - n,
{
    if n < s.len() {
        assert(s.take(n + 1).drop_last() =~= s.take(n));
        lemma_items_prefix_err(s, n + 1, c);
    } else {
        assert(s.take(n) =~= s);
    }
}

fn boolean(l: &Rule, r: &Rule, disjoin: bool) -> (v: Result<Rule, Error>)
    ensures
        outcome(v) == connect(l@, r@, disjoin),
{
    match (l, r) {
        (Rule::Bool(a), Rule::Bool(b)) => Ok(Rule::Bool(if disjoin { *a || *b } else { *a && *b })),
        _ => Err(Error::CannotCompare(copy_rule(l), copy_rule(r))),
    }
}

pub(crate) fn equal(l: &Rule, r: &Rule) -> (v: Result<Rule, Error>)
    ensures
        outcome(v) == compare(l@, r@),
{
    match (l, r) {
        (Rule::String(a), Rule::String(b)) => Ok(Rule::Bool(a.eq(b))),
        (Rule::Integer(a), Rule::Integer(b)) => Ok(Rule::Bool(*a == *b)),
        (Rule::Float(a), Rule::Float(b)) => Ok(Rule::Bool(a.eq(b))),
        (Rule::Bool(a), Rule::Bool(b)) => Ok(Rule::Bool(*a == *b)),
        _ => Err(Error::CannotCompare(copy_rule(l), copy_rule(r))),
    }
}

/// Whether `items` holds a value equal to `x`.
fn holds(items: &Vec<Rule>, x: &Rule) -> (b: bool)
    ensures
        b == terms_of(items@).contains(x@),
{
    proof {
        lemma_terms_of(items@);
    }
    let mut i: usize = 0;
    while i < items.len()
        invariant
            i <= items@.len(),
            terms_of(items@).len() == items@.len(),
            forall|k: int| 0 <= k < items@.len() ==> #[trigger] terms_of(items@)[k] == term_of(items@[k]),
            forall|k: int| 0 <= k < i ==> terms_of(items@)[k] != x@,
        decreases items@.len() - i,
    {
        if same_rule(&items[i], x) {
            assert(terms_of(items@)[i as int] == x@);
            return true;
        }
        i = i + 1;
    }
    false
}

/// The value bound to the reference `s` (a text starting with `$`), or the
/// empty string where nothing is bound.
fn resolve(s: &String, context: &Context) -> (v: Rule)
    requires
        s@.len() > 0,
        s@[0] == '$',
    ensures
        v@ == match lookup(context@, reference_name(s@)) {
            Some(t) => t,
            None => Term::String(Seq::empty()),
        },
{
    let cs = chars_of(s.as_str());
    let mut k: usize = 0;
    assert(cs@.skip(0) =~= cs@);
    while k < cs.len() && cs[k] == '$'
        invariant
            k <= cs@.len(),
            reference_name(s@) == reference_name(cs@.skip(k as int)),
        decreases cs@.len() - k,
    {
        assert(cs@.skip(k as int).skip(1) =~= cs@.skip(k + 1));
        k = k + 1;
    }
    let key = string_of(&cs, k, cs.len());
    assert(key@ =~= cs@.skip(k as int));
    match context.get(&key) {
        Ok(v) => copy_rule(v),
        Err(_) => Rule::String(String::new()),
    }
}

impl Rule {
    /// The value of this expression under `context`.
    ///
    /// A call form `(if c a b)`, `(eq l r)`, `(and l r)`, `(or l r)`,
    /// `(in x xs)` or `(list ...)` evaluates all its arguments first, in
    /// order, and the first failure is the result. Any other tuple gives the
    /// empty tuple; `$name` gives the first binding of `name`, or the empty
    /// string; any other value gives itself.
    pub fn eval(&self, context: &Context) -> (r: Result<Rule, Error>)
        ensures
            outcome(r) == eval_term(self@, context@),
        decreases self,
    {
        match self {
            Rule::Tuple(children) => {
                proof {
                    lemma_terms_of(children@);
                    assert(decreases_to!(*self => (*self)->Tuple_0));
                }
                let ghost cs = terms_of(children@);
                let n = children.len();
                if n == 0 {
                    return Ok(Rule::Tuple(Vec::new()));
                }
                assert(cs[0] == children@[0]@);
                match &children[0] {
                    Rule::If(_) => {
                        if n != 4 {
                            return Err(Error::InvalidIfStatement(copy_rule(self)));
                        }
                        proof {
                            assert(decreases_to!(*children => children[1]));
                            assert(decreases_to!(*children => children[2]));
                            assert(decreases_to!(*children => children[3]));
                            assert(cs[1] == children@[1]@ && cs[2] == children@[2]@ && cs[3]
                                == children@[3]@);
                        }
                        let k = match children[1].eval(context) {
                            Ok(v) => v,
                            Err(e) => return Err(e),
                        };
                        let a = match children[2].eval(context) {
                            Ok(v) => v,
                            Err(e) => return Err(e),
                        };
                        let b = match children[3].eval(context) {
                            Ok(v) => v,
                            Err(e) => return Err(e),
                        };
                        match k {
                            Rule::Bool(true) => Ok(a),
                            Rule::Bool(false) => Ok(b),
                            _ => Err(Error::InvalidIfCondition(k)),
                        }
                    },
                    Rule::Eq(_) | Rule::And(_) | Rule::Or(_) | Rule::In(_) => {
                        if n != 3 {
                            return Err(
                                match &children[0] {
                                    Rule::Eq(_) => Error::InvalidEqStatement(copy_rule(self)),
                                    Rule::And(_) => Error::InvalidAndStatement(copy_rule(self)),
                                    Rule::Or(_) => Error::InvalidOrStatement(copy_rule(self)),
                                    _ => Error::InvalidInStatement(copy_rule(self)),
                                },
                            );
                        }
                        proof {
                            assert(decreases_to!(*children => children[1]));
                            assert(decreases_to!(*children => children[2]));
                            assert(cs[1] == children@[1]@ && cs[2] == children@[2]@);
                        }
                        let l = match children[1].eval(context) {
                            Ok(v) => v,
                            Err(e) => return Err(e),
                        };
                        let r = match children[2].eval(context) {
                            Ok(v) => v,
                            Err(e) => return Err(e),
                        };
                        match &children[0] {
                            Rule::Eq(_) => equal(&l, &r),
                            Rule::And(_) => boolean(&l, &r, false),
                            Rule::Or(_) => boolean(&l, &r, true),
                            _ => match (&l, &r) {
                                (Rule::String(_), Rule::Tuple(items))
                                | (Rule::Integer(_), Rule::Tuple(items))
                                | (Rule::Float(_), Rule::Tuple(items))
                                | (Rule::Bool(_), Rule::Tuple(items)) => Ok(
                                    Rule::Bool(holds(items, &l)),
                                ),
                                _ => Err(Error::InvalidInStatement(copy_rule(self))),
                            },
                        }
                    },
                    Rule::List(_) => {
                        let mut vals: Vec<Rule> = Vec::new();
                        let mut i: usize = 1;
                        proof {
                            assert(cs.skip(1).take(0) =~= Seq::<Term>::empty());
                            assert(terms_of(vals@) =~= Seq::<Term>::empty());
                        }
                        while i < n
                            invariant
                                *self == Rule::Tuple(*children),
                                n == children@.len(),
                                children@[0] is List,
                                1 <= i <= n,
                                cs == terms_of(children@),
                                cs.len() == n,
                                forall|k: int| 0 <= k < n ==> #[trigger] cs[k] == children@[k]@,
                                eval_items(cs.skip(1).take(i - 1), context@) == Ok::<
                                    Seq<Term>,
                                    Fault,
                                >(terms_of(vals@)),
                            decreases n - i,
                        {
                            proof {
                                assert(decreases_to!(*self => (*self)->Tuple_0));
                                assert(decreases_to!(*children => children[i as int]));
                                assert(cs.skip(1).take(i as int).drop_last() =~= cs.skip(1).take(
                                    i - 1,
                                ));
                                assert(cs.skip(1).take(i as int).last() == cs[i as int]);
                            }
                            match children[i].eval(context) {
                                Ok(v) => {
                                    proof {
                                        assert(vals@.push(v).drop_last() =~= vals@);
                                    }
                                    vals.push(v);
                                },
                                Err(e) => {
                                    proof {
                                        assert(eval_items(cs.skip(1).take(i as int), context@)
                                            == Err::<Seq<Term>, Fault>(e@));
                                        lemma_items_prefix_err(cs.skip(1), i as int, context@);
                                    }
                                    return Err(e);
                                },
                            }
                            i = i + 1;
                        }
                        assert(cs.skip(1).take(n - 1) =~= cs.skip(1));
                        Ok(Rule::Tuple(vals))
                    },
                    _ => Ok(Rule::Tuple(Vec::new())),
                }
            },
            Rule::String(s) => {
                if s.as_str().unicode_len() > 0 && s.as_str().get_char(0) == '$' {
                    Ok(resolve(s, context))
                } else {
                    Ok(Rule::String(s.clone()))
                }
            },
            _ => Ok(copy_rule(self)),
        }
    }
}

/// A value that needs no bindings and holds only scalars and `list` forms.
pub open spec fn plain_data(t: Term) -> bool
    decreases t,
{
    match t {
        Term::String(s) => !(s.len() > 0 && s[0] == '$'),
        Term::Bool(_) => true,
        Term::Integer(_) => true,
        Term::Float(_) => true,
        Term::Tuple(cs) => cs.len() > 0 && cs[0] is List && forall|i: int|
            1 <= i < cs.len() ==> plain_data(#[trigger] cs[i]),
        _ => false,
    }
}

/// Evaluating a scalar, or a `list` form without arguments, a second time
/// gives the same value, under any bindings. (A `list` form with arguments
/// evaluates to a tuple without a head, which evaluates to the empty tuple.)
pub proof fn lemma_eval_idempotent(r: Term, c: Seq<(Seq<char>, Term)>)
    requires
        plain_data(r),
        !(r is Tuple && r->Tuple_0.len() > 1),
    ensures
        eval_term(r, c) is Ok,
        eval_term(eval_term(r, c)->Ok_0, c) == eval_term(r, c),
{
    if let Term::Tuple(cs) = r {
        assert(cs.skip(1).len() == 0);
        assert(cs[0] is List);
        assert(eval_items(cs.skip(1), c) == Ok::<Seq<Term>, Fault>(Seq::empty()));
        assert(eval_term(r, c) == Ok::<Term, Fault>(Term::Tuple(Seq::empty())));
    }
}

/// A value that evaluation can produce from plain data: a scalar that is no
/// reference, or a tuple of such values.
pub open spec fn is_value(t: Term) -> bool
    decreases t,
{
    match t {
        Term::String(s) => !(s.len() > 0 && s[0] == '$'),
        Term::Bool(_) => true,
        Term::Integer(_) => true,
        Term::Float(_) => true,
        Term::Tuple(vs) => forall|i: int| 0 <= i < vs.len() ==> is_value(#[trigger] vs[i]),
        _ => false,
    }
}

proof fn lemma_plain_evaluates(r: Term, c: Seq<(Seq<char>, Term)>)
    requires
        plain_data(r),
    ensures
        eval_term(r, c) is Ok,
        is_value(eval_term(r, c)->Ok_0),
    decreases r,
{
    if let Term::Tuple(cs) = r {
        let rest = cs.skip(1);
        assert forall|i: int| 0 <= i < rest.len() implies plain_data(#[trigger] rest[i]) by {
            assert(rest[i] == cs[i + 1]);
        }
        lemma_plain_items(rest, c);
    }
}

proof fn lemma_plain_items(s: Seq<Term>, c: Seq<(Seq<char>, Term)>)
    requires
        forall|i: int| 0 <= i < s.len() ==> plain_data(#[trigger] s[i]),
    ensures
        eval_items(s, c) is Ok,
        forall|i: int|
            0 <= i < eval_items(s, c)->Ok_0.len() ==> is_value(#[trigger] eval_items(s, c)->Ok_0[i]),
    decreases s,
{
    if s.len() > 0 {
        let d = s.drop_last();
        assert forall|i: int| 0 <= i < d.len() implies plain_data(#[trigger] d[i]) by {
            assert(d[i] == s[i]);
        }
        lemma_plain_items(d, c);
        lemma_plain_evaluates(s.last(), c);
        let vs = eval_items(d, c)->Ok_0;
        let v = eval_term(s.last(), c)->Ok_0;
        assert forall|i: int| 0 <= i < vs.push(v).len() implies is_value(#[trigger] vs.push(v)[i]) by {
            if i < vs.len() {
                assert(vs.push(v)[i] == vs[i]);
            }
        }
    }
}

proof fn lemma_value_evaluates(v: Term, c: Seq<(Seq<char>, Term)>)
    requires
        is_value(v),
    ensures
        eval_term(v, c) == (if v is Tuple {
            Ok::<Term, Fault>(Term::Tuple(Seq::empty()))
        } else {
            Ok::<Term, Fault>(v)
        }),
{
    if let Term::Tuple(vs) = v {
        if vs.len() > 0 {
            assert(is_value(vs[0]));
        }
    }
}

/// A rule made of scalars and `list` forms evaluates without failure under
/// any bindings, and evaluating its value once more gives a value that
/// further evaluation keeps.
pub proof fn lemma_eval_settles(r: Term, c: Seq<(Seq<char>, Term)>)
    requires
        plain_data(r),
    ensures
        eval_term(r, c) is Ok,
        eval_term(eval_term(r, c)->Ok_0, c) is Ok,
        eval_term(eval_term(eval_term(r, c)->Ok_0, c)->Ok_0, c) == eval_term(eval_term(r, c)->Ok_0, c),
{
    lemma_plain_evaluates(r, c);
    let v = eval_term(r, c)->Ok_0;
    lemma_value_evaluates(v, c);
    let w = eval_term(v, c)->Ok_0;
    assert(is_value(w)) by {
        if v is Tuple {
            assert(w == Term::Tuple(Seq::empty()));
        }
    }
    lemma_value_evaluates(w, c);
}

impl Rule {
    /// Reads a policy as a configuration holds it: the expression must
    /// parse, and evaluate without failure under no bindings.
    pub fn from_policy(s: &str) -> (r: Result<Rule, Error>)
        ensures
            match crate::parse::parse_term(s@) {
                None => r matches Err(e) && e@ == Fault::CannotParse(s@),
                Some(t) => match eval_term(t, Seq::empty()) {
                    Err(e) => r matches Err(x) && x@ == e,
                    Ok(_) => r matches Ok(v) && v@ == t,
                },
            },
    {
        let rule = match crate::parse::parse_rule(s) {
            Ok(rule) => rule,
            Err(e) => return Err(e),
        };
        let empty = Context(Vec::new());
        assert(empty@ =~= Seq::<(Seq<char>, Term)>::empty());
        match rule.eval(&empty) {
            Err(e) => Err(e),
            Ok(_) => Ok(rule),
        }
    }
}

} // verus!
