//! Operations and the permission bitsets that evaluated rules grant.
use crate::rule::{lemma_terms_of, term_of, terms_of, Rule, Term};
use vstd::prelude::*;

verus! {

/// A set of operations, one bit each.
pub type Permission = u8;

/// An operation on a resource.
#[derive(Debug, Clone, Copy, PartialEq, Eq, Structural)]
pub enum Operation {
    Create,
    Read,
    Update,
    Delete,
    List,
}

/// The bit of an operation in a permission.
pub open spec fn op_bit(o: Operation) -> u8 {
    match o {
        Operation::Create => 0b00001,
        Operation::Read => 0b00010,
        Operation::Update => 0b00100,
        Operation::Delete => 0b01000,
        Operation::List => 0b10000,
    }
}

/// The name of an operation in rules.
pub open spec fn op_name(o: Operation) -> Seq<char> {
    match o {
        Operation::Create => seq!['c', 'r', 'e', 'a', 't', 'e'],
        Operation::Read => seq!['r', 'e', 'a', 'd'],
        Operation::Update => seq!['u', 'p', 'd', 'a', 't', 'e'],
        Operation::Delete => seq!['d', 'e', 'l', 'e', 't', 'e'],
        Operation::List => seq!['l', 'i', 's', 't'],
    }
}

/// The word that grants every operation.
pub open spec fn all_word() -> Seq<char> {
    seq!['a', 'l', 'l']
}

pub open spec fn is_op_name(s: Seq<char>) -> bool {
    exists|o: Operation| op_name(o) == s
}

/// Whether `items` holds the string `s`.
pub open spec fn names(items: Seq<Term>, s: Seq<char>) -> bool {
    items.contains(Term::String(s))
}

pub open spec fn flag(b: bool, bit: u8) -> u8 {
    if b {
        bit
    } else {
        0
    }
}

/// The bits of the operations that `items` names.
pub open spec fn named_bits(items: Seq<Term>) -> u8 {
    flag(names(items, op_name(Operation::Create)), 1) | flag(names(items, op_name(Operation::Read)), 2)
        | flag(names(items, op_name(Operation::Update)), 4) | flag(
        names(items, op_name(Operation::Delete)),
        8,
    ) | flag(names(items, op_name(Operation::List)), 16)
}

/// The operations that an evaluated rule grants: a tuple of strings that
/// holds `all` grants every operation; one whose strings all name
/// operations grants those; anything else grants none.
pub open spec fn permission_of(t: Term) -> u8 {
    match t {
        Term::Tuple(items) => if !(forall|i: int| 0 <= i < items.len() ==> #[trigger] items[i] is String) {
            0
        } else if names(items, all_word()) {
            0b11111
        } else if forall|i: int| 0 <= i < items.len() ==> is_op_name(#[trigger] items[i]->String_0) {
            named_bits(items)
        } else {
            0
        },
        _ => 0,
    }
}

/// Whether the permission `p` holds the operation `o`.
pub open spec fn grants(p: u8, o: Operation) -> bool {
    p & op_bit(o) != 0
}

/// Each flag of a set of five stands for its own bit.
proof fn lemma_flags(x1: u8, x2: u8, x3: u8, x4: u8, x5: u8)
    requires
        x1 == 0 || x1 == 1,
        x2 == 0 || x2 == 2,
        x3 == 0 || x3 == 4,
        x4 == 0 || x4 == 8,
        x5 == 0 || x5 == 16,
    ensures
        ((x1 | x2 | x3 | x4 | x5) & 1 != 0) == (x1 == 1),
        ((x1 | x2 | x3 | x4 | x5) & 2 != 0) == (x2 == 2),
        ((x1 | x2 | x3 | x4 | x5) & 4 != 0) == (x3 == 4),
        ((x1 | x2 | x3 | x4 | x5) & 8 != 0) == (x4 == 8),
        ((x1 | x2 | x3 | x4 | x5) & 16 != 0) == (x5 == 16),
        (x1 | x2 | x3 | x4 | x5) & 31 == (x1 | x2 | x3 | x4 | x5),
        (x1 | x2 | x3 | x4 | x5) == x1 + x2 + x3 + x4 + x5,
{
    assert(((x1 | x2 | x3 | x4 | x5) & 1 != 0) == (x1 == 1)) by (bit_vector)
        requires
            x1 == 0 || x1 == 1,
            x2 == 0 || x2 == 2,
            x3 == 0 || x3 == 4,
            x4 == 0 || x4 == 8,
            x5 == 0 || x5 == 16,
    ;
    assert(((x1 | x2 | x3 | x4 | x5) & 2 != 0) == (x2 == 2)) by (bit_vector)
        requires
            x1 == 0 || x1 == 1,
            x2 == 0 || x2 == 2,
            x3 == 0 || x3 == 4,
            x4 == 0 || x4 == 8,
            x5 == 0 || x5 == 16,
    ;
    assert(((x1 | x2 | x3 | x4 | x5) & 4 != 0) == (x3 == 4)) by (bit_vector)
        requires
            x1 == 0 || x1 == 1,
            x2 == 0 || x2 == 2,
            x3 == 0 || x3 == 4,
            x4 == 0 || x4 == 8,
            x5 == 0 || x5 == 16,
    ;
    assert(((x1 | x2 | x3 | x4 | x5) & 8 != 0) == (x4 == 8)) by (bit_vector)
        requires
            x1 == 0 || x1 == 1,
            x2 == 0 || x2 == 2,
            x3 == 0 || x3 == 4,
            x4 == 0 || x4 == 8,
            x5 == 0 || x5 == 16,
    ;
    assert(((x1 | x2 | x3 | x4 | x5) & 16 != 0) == (x5 == 16)) by (bit_vector)
        requires
            x1 == 0 || x1 == 1,
            x2 == 0 || x2 == 2,
            x3 == 0 || x3 == 4,
            x4 == 0 || x4 == 8,
            x5 == 0 || x5 == 16,
    ;
    assert((x1 | x2 | x3 | x4 | x5) & 31 == (x1 | x2 | x3 | x4 | x5)) by (bit_vector)
        requires
            x1 == 0 || x1 == 1,
            x2 == 0 || x2 == 2,
            x3 == 0 || x3 == 4,
            x4 == 0 || x4 == 8,
            x5 == 0 || x5 == 16,
    ;
    assert((x1 | x2 | x3 | x4 | x5) == x1 + x2 + x3 + x4 + x5) by (bit_vector)
        requires
            x1 == 0 || x1 == 1,
            x2 == 0 || x2 == 2,
            x3 == 0 || x3 == 4,
            x4 == 0 || x4 == 8,
            x5 == 0 || x5 == 16,
    ;
}

/// The operations named in `items` are exactly those granted by their bits.
pub proof fn lemma_named_bits(items: Seq<Term>, o: Operation)
    ensures
        grants(named_bits(items), o) == names(items, op_name(o)),
        named_bits(items) & 31 == named_bits(items),
{
    lemma_flags(
        flag(names(items, op_name(Operation::Create)), 1),
        flag(names(items, op_name(Operation::Read)), 2),
        flag(names(items, op_name(Operation::Update)), 4),
        flag(names(items, op_name(Operation::Delete)), 8),
        flag(names(items, op_name(Operation::List)), 16),
    );
}

impl Operation {
    /// Whether `permission` holds this operation's bit.
    pub fn allowed_for(&self, permission: Permission) -> (r: bool)
        ensures
            r == grants(permission, *self),
    {
        permission & u8::from(*self) != 0
    }

    /// The operation that `s` names, if any.
    pub fn from_name(s: &str) -> (r: Option<Operation>)
        ensures
            match r {
                Some(o) => op_name(o) == s@,
                None => !is_op_name(s@),
            },
    {
        operation_named(&s.to_owned())
    }

    /// The name of this operation in rules.
    pub fn name(&self) -> (r: String)
        ensures
            r@ == op_name(*self),
    {
        let s = match self {
            Operation::Create => "create",
            Operation::Read => "read",
            Operation::Update => "update",
            Operation::Delete => "delete",
            Operation::List => "list",
        };
        proof {
            reveal_strlit("create");
            reveal_strlit("read");
            reveal_strlit("update");
            reveal_strlit("delete");
            reveal_strlit("list");
        }
        let r = s.to_owned();
        assert(r@ =~= op_name(*self));
        r
    }
}

impl From<Operation> for Permission {
    fn from(val: Operation) -> Permission {
        match val {
            Operation::Create => 0b00001,
            Operation::Read => 0b00010,
            Operation::Update => 0b00100,
            Operation::Delete => 0b01000,
            Operation::List => 0b10000,
        }
    }
}

impl vstd::std_specs::convert::FromSpecImpl<Operation> for Permission {
    open spec fn obeys_from_spec() -> bool {
        true
    }

    open spec fn from_spec(val: Operation) -> Permission {
        op_bit(val)
    }
}

/// Whether the string `s` is `w`.
fn spells(s: &String, w: &str) -> (r: bool)
    ensures
        r == (s@ == w@),
{
    let t = w.to_owned();
    s.eq(&t)
}

/// The operation that `s` names, if any.
fn operation_named(s: &String) -> (r: Option<Operation>)
    ensures
        match r {
            Some(o) => op_name(o) == s@,
            None => !is_op_name(s@),
        },
{
    proof {
        reveal_strlit("create");
        reveal_strlit("read");
        reveal_strlit("update");
        reveal_strlit("delete");
        reveal_strlit("list");
    }
    assert("create"@ =~= op_name(Operation::Create));
    assert("read"@ =~= op_name(Operation::Read));
    assert("update"@ =~= op_name(Operation::Update));
    assert("delete"@ =~= op_name(Operation::Delete));
    assert("list"@ =~= op_name(Operation::List));
    if spells(s, "create") {
        Some(Operation::Create)
    } else if spells(s, "read") {
        Some(Operation::Read)
    } else if spells(s, "update") {
        Some(Operation::Update)
    } else if spells(s, "delete") {
        Some(Operation::Delete)
    } else if spells(s, "list") {
        Some(Operation::List)
    } else {
        assert forall|o: Operation| op_name(o) != s@ by {
            match o {
                Operation::Create => {},
                Operation::Read => {},
                Operation::Update => {},
                Operation::Delete => {},
                Operation::List => {},
            }
        }
        None
    }
}

/// The permission that an evaluated rule grants; see `permission_of`.
pub fn permission_from(rule: &Rule) -> (p: Permission)
    ensures
        p == permission_of(rule@),
{
    let items = match rule {
        Rule::Tuple(items) => items,
        _ => return 0,
    };
    proof {
        lemma_terms_of(items@);
        reveal_strlit("all");
    }
    assert("all"@ =~= all_word());
    let ghost ts = terms_of(items@);
    let mut all = false;
    let mut known = true;
    let mut c = false;
    let mut r = false;
    let mut u = false;
    let mut d = false;
    let mut l = false;
    let mut i: usize = 0;
    while i < items.len()
        invariant
            ts == terms_of(items@),
            ts.len() == items@.len(),
            forall|k: int| 0 <= k < items@.len() ==> #[trigger] ts[k] == term_of(items@[k]),
            i <= items@.len(),
            *rule == Rule::Tuple(*items),
            forall|k: int| 0 <= k < i ==> #[trigger] ts[k] is String,
            all == ts.take(i as int).contains(Term::String(all_word())),
            known == forall|k: int| 0 <= k < i ==> is_op_name(#[trigger] ts[k]->String_0),
            c == ts.take(i as int).contains(Term::String(op_name(Operation::Create))),
            r == ts.take(i as int).contains(Term::String(op_name(Operation::Read))),
            u == ts.take(i as int).contains(Term::String(op_name(Operation::Update))),
            d == ts.take(i as int).contains(Term::String(op_name(Operation::Delete))),
            l == ts.take(i as int).contains(Term::String(op_name(Operation::List))),
        decreases items@.len() - i,
    {
        let ghost pre = ts.take(i as int);
        assert(ts.take(i + 1) =~= pre.push(ts[i as int]));
        proof {
            reveal_strlit("all");
        }
        assert("all"@ =~= all_word());
        match &items[i] {
            Rule::String(s) => {
                let is_all = spells(s, "all");
                all = all || is_all;
                match operation_named(s) {
                    Some(o) => {
                        match o {
                            Operation::Create => c = true,
                            Operation::Read => r = true,
                            Operation::Update => u = true,
                            Operation::Delete => d = true,
                            Operation::List => l = true,
                        }
                    },
                    None => known = false,
                }
                proof {
                    let nw = pre.push(ts[i as int]);
                    assert forall|w: Seq<char>| nw.contains(Term::String(w)) == (pre.contains(Term::String(w)) || w == s@) by {
                        if nw.contains(Term::String(w)) {
                            let j = choose|j: int| 0 <= j < nw.len() && nw[j] == Term::String(w);
                            if j < pre.len() {
                                assert(pre[j] == nw[j]);
                            }
                        }
                        if pre.contains(Term::String(w)) {
                            let j = choose|j: int| 0 <= j < pre.len() && pre[j] == Term::String(w);
                            assert(nw[j] == pre[j]);
                        }
                        if w == s@ {
                            assert(nw[i as int] == Term::String(w));
                        }
                    }
                }
            },
            _ => {
                assert(!(ts[i as int] is String));
                return 0;
            },
        }
        i = i + 1;
    }
    assert(ts.take(items@.len() as int) =~= ts);
    if all {
        return 0b11111;
    }
    if !known {
        return 0;
    }
    let p: u8 = (if c { 1u8 } else { 0u8 }) + (if r { 2u8 } else { 0u8 }) + (if u { 4u8 } else { 0u8 })
        + (if d { 8u8 } else { 0u8 }) + (if l { 16u8 } else { 0u8 });
    proof {
        lemma_flags(
            flag(c, 1),
            flag(r, 2),
            flag(u, 4),
            flag(d, 8),
            flag(l, 16),
        );
    }
    p
}

impl From<Rule> for Permission {
    fn from(rule: Rule) -> Permission {
        permission_from(&rule)
    }
}

impl vstd::std_specs::convert::FromSpecImpl<Rule> for Permission {
    open spec fn obeys_from_spec() -> bool {
        true
    }

    open spec fn from_spec(rule: Rule) -> Permission {
        permission_of(rule@)
    }
}

/// A flag that is set stays set when flags are only added.
proof fn lemma_flags_grow(x1: u8, x2: u8, x3: u8, x4: u8, x5: u8, y1: u8, y2: u8, y3: u8, y4: u8, y5: u8)
    requires
        x1 == 0 || x1 == 1,
        x2 == 0 || x2 == 2,
        x3 == 0 || x3 == 4,
        x4 == 0 || x4 == 8,
        x5 == 0 || x5 == 16,
        y1 == 0 || y1 == 1,
        y2 == 0 || y2 == 2,
        y3 == 0 || y3 == 4,
        y4 == 0 || y4 == 8,
        y5 == 0 || y5 == 16,
        x1 != 0 ==> y1 != 0,
        x2 != 0 ==> y2 != 0,
        x3 != 0 ==> y3 != 0,
        x4 != 0 ==> y4 != 0,
        x5 != 0 ==> y5 != 0,
    ensures
        (x1 | x2 | x3 | x4 | x5) & (y1 | y2 | y3 | y4 | y5) == (x1 | x2 | x3 | x4 | x5),
{
    assert((x1 | x2 | x3 | x4 | x5) & (y1 | y2 | y3 | y4 | y5) == (x1 | x2 | x3 | x4 | x5))
        by (bit_vector)
        requires
            x1 == 0 || x1 == 1,
            x2 == 0 || x2 == 2,
            x3 == 0 || x3 == 4,
            x4 == 0 || x4 == 8,
            x5 == 0 || x5 == 16,
            y1 == 0 || y1 == 1,
            y2 == 0 || y2 == 2,
            y3 == 0 || y3 == 4,
            y4 == 0 || y4 == 8,
            y5 == 0 || y5 == 16,
            x1 != 0 ==> y1 != 0,
            x2 != 0 ==> y2 != 0,
            x3 != 0 ==> y3 != 0,
            x4 != 0 ==> y4 != 0,
            x5 != 0 ==> y5 != 0,
    ;
}

/// Adding an operation name, or `all`, to an evaluated list never takes a
/// permission bit away.
pub proof fn lemma_permission_monotone(items: Seq<Term>, name: Seq<char>)
    requires
        is_op_name(name) || name == all_word(),
    ensures
        permission_of(Term::Tuple(items)) & permission_of(Term::Tuple(items.push(Term::String(name))))
            == permission_of(Term::Tuple(items)),
{
    let more = items.push(Term::String(name));
    let p = permission_of(Term::Tuple(items));
    let q = permission_of(Term::Tuple(more));
    assert forall|w: Seq<char>| names(items, w) implies names(more, w) by {
        let j = choose|j: int| 0 <= j < items.len() && items[j] == Term::String(w);
        assert(more[j] == items[j]);
    }
    assert(names(more, name)) by {
        assert(more[items.len() as int] == Term::String(name));
    }
    if p == 0 {
        assert(0u8 & q == 0) by (bit_vector);
    } else {
        // every item is a string
        assert forall|i: int| 0 <= i < more.len() implies #[trigger] more[i] is String by {
            if i < items.len() {
                assert(more[i] == items[i]);
            }
        }
        if names(items, all_word()) {
            assert(p == 31 && q == 31);
            assert(31u8 & 31u8 == 31u8) by (bit_vector);
        } else if name == all_word() {
            lemma_named_bits(items, Operation::Create);
            assert(p & 31 == p);
        } else {
            let o = choose|o: Operation| op_name(o) == name;
            assert forall|i: int| 0 <= i < more.len() implies is_op_name(#[trigger] more[i]->String_0) by {
                if i < items.len() {
                    assert(more[i] == items[i]);
                }
            }
            assert(!names(more, all_word())) by {
                if names(more, all_word()) {
                    let j = choose|j: int| 0 <= j < more.len() && more[j] == Term::String(all_word());
                    if j < items.len() {
                        assert(items[j] == more[j]);
                    } else {
                        assert(name == all_word());
                    }
                }
            }
            lemma_flags_grow(
                flag(names(items, op_name(Operation::Create)), 1),
                flag(names(items, op_name(Operation::Read)), 2),
                flag(names(items, op_name(Operation::Update)), 4),
                flag(names(items, op_name(Operation::Delete)), 8),
                flag(names(items, op_name(Operation::List)), 16),
                flag(names(more, op_name(Operation::Create)), 1),
                flag(names(more, op_name(Operation::Read)), 2),
                flag(names(more, op_name(Operation::Update)), 4),
                flag(names(more, op_name(Operation::Delete)), 8),
                flag(names(more, op_name(Operation::List)), 16),
            );
        }
    }
}

/// `all` is the top permission: a list of strings that holds it grants
/// every operation, and no permission holds a bit outside it.
pub proof fn lemma_all_is_top(items: Seq<Term>, t: Term, o: Operation)
    requires
        forall|i: int| 0 <= i < items.len() ==> #[trigger] items[i] is String,
        names(items, all_word()),
    ensures
        permission_of(Term::Tuple(items)) == 0b11111,
        grants(permission_of(Term::Tuple(items)), o),
        permission_of(t) & 0b11111 == permission_of(t),
{
    assert(31u8 & 1 != 0 && 31u8 & 2 != 0 && 31u8 & 4 != 0 && 31u8 & 8 != 0 && 31u8 & 16 != 0)
        by (bit_vector);
    lemma_named_bits(Seq::empty(), o);
    if let Term::Tuple(xs) = t {
        lemma_named_bits(xs, o);
    }
    assert(0u8 & 31 == 0u8) by (bit_vector);
    assert(31u8 & 31 == 31u8) by (bit_vector);
}

} // verus!
