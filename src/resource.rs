//! Resource paths and the hierarchy of resources with their access rules.
use crate::config::Config;
use crate::eval::{compare, equal, eval_items, eval_term};
use crate::permission::{all_word, flag, grants, is_op_name, lemma_named_bits, named_bits, names, op_name, permission_from, permission_of, Operation};
use crate::rule::{
    self, literal_rule, literal_term, lookup, same_rule, Context, Fault, Rule, Term,
};
use crate::text::{chars_of, lemma_split_len, push_char, split, string_of};
use vstd::prelude::*;

verus! {

/// Errors of building a hierarchy.
#[derive(Debug)]
pub enum Error {
    FormatError(String),
    DuplicateResource(String),
    AmbiguousResource(String, String),
}

/// The mathematical value of an `Error`.
pub enum Flaw {
    FormatError(Seq<char>),
    DuplicateResource(Seq<char>),
    AmbiguousResource(Seq<char>, Seq<char>),
}

impl View for Error {
    type V = Flaw;

    open spec fn view(&self) -> Flaw {
        match self {
            Error::FormatError(p) => Flaw::FormatError(p@),
            Error::DuplicateResource(p) => Flaw::DuplicateResource(p@),
            Error::AmbiguousResource(p, n) => Flaw::AmbiguousResource(p@, n@),
        }
    }
}

impl PartialEq for Error {
    fn eq(&self, other: &Error) -> bool {
        match (self, other) {
            (Error::FormatError(a), Error::FormatError(b)) => a.eq(b),
            (Error::DuplicateResource(a), Error::DuplicateResource(b)) => a.eq(b),
            (Error::AmbiguousResource(a, x), Error::AmbiguousResource(b, y)) => a.eq(b) && x.eq(y),
            _ => false,
        }
    }
}

impl vstd::std_specs::cmp::PartialEqSpecImpl for Error {
    open spec fn obeys_eq_spec() -> bool {
        true
    }

    open spec fn eq_spec(&self, other: &Error) -> bool {
        self@ == other@
    }
}

/// `s` with every run of `/` collapsed to one.
pub open spec fn collapse(s: Seq<char>) -> Seq<char>
    decreases s.len(),
{
    if s.len() == 0 {
        s
    } else {
        let p = collapse(s.drop_last());
        if s.last() == '/' && p.len() > 0 && p.last() == '/' {
            p
        } else {
            p.push(s.last())
        }
    }
}

pub open spec fn reversed<A>(s: Seq<A>) -> Seq<A> {
    Seq::new(s.len(), |i: int| s[s.len() - 1 - i])
}

/// Whether `p` is a resource path: it starts with `/`.
pub open spec fn is_path(p: Seq<char>) -> bool {
    p.len() > 0 && p[0] == '/'
}

/// The segments of the path `p`, last segment first: runs of `/` count as
/// one, and a trailing `/` gives a last, empty segment.
pub open spec fn segments(p: Seq<char>) -> Seq<Seq<char>> {
    reversed(split(collapse(p).skip(1), '/'))
}

/// A resource path, held as its segments with the next one last.
#[derive(Debug)]
pub struct Path(pub Vec<String>);

pub open spec fn strings_view(v: Seq<String>) -> Seq<Seq<char>> {
    v.map_values(|s: String| s@)
}

impl View for Path {
    type V = Seq<Seq<char>>;

    open spec fn view(&self) -> Seq<Seq<char>> {
        strings_view(self.0@)
    }
}

impl PartialEq for Path {
    fn eq(&self, other: &Path) -> bool {
        let n = self.0.len();
        if n != other.0.len() {
            assert(self@.len() != other@.len());
            return false;
        }
        let mut i: usize = 0;
        while i < n
            invariant
                n == self.0@.len() == other.0@.len(),
                i <= n,
                forall|k: int| 0 <= k < i ==> #[trigger] self@[k] == other@[k],
            decreases n - i,
        {
            if !self.0[i].eq(&other.0[i]) {
                assert(self@[i as int] != other@[i as int]);
                return false;
            }
            i = i + 1;
        }
        assert(self@ =~= other@);
        true
    }
}

impl vstd::std_specs::cmp::PartialEqSpecImpl for Path {
    open spec fn obeys_eq_spec() -> bool {
        true
    }

    open spec fn eq_spec(&self, other: &Path) -> bool {
        self@ == other@
    }
}

/// `cs` with every run of `/` collapsed to one.
fn collapse_slashes(cs: &Vec<char>) -> (r: Vec<char>)
    ensures
        r@ == collapse(cs@),
{
    let mut r: Vec<char> = Vec::new();
    let mut i: usize = 0;
    assert(cs@.take(0) =~= Seq::<char>::empty());
    while i < cs.len()
        invariant
            i <= cs@.len(),
            r@ == collapse(cs@.take(i as int)),
        decreases cs@.len() - i,
    {
        assert(cs@.take(i + 1).drop_last() =~= cs@.take(i as int));
        let c = cs[i];
        if !(c == '/' && r.len() > 0 && r[r.len() - 1] == '/') {
            r.push(c);
        }
        i = i + 1;
    }
    assert(cs@.take(cs@.len() as int) =~= cs@);
    r
}

impl Path {
    /// Reads a resource path. It must start with `/`; runs of `/` count as
    /// one; a trailing `/` gives a last, empty segment. Fails with
    /// `FormatError` of the text otherwise.
    pub fn from_str(path: &str) -> (r: Result<Path, Error>)
        ensures
            is_path(path@) ==> (r matches Ok(p) && p@ == segments(path@)),
            !is_path(path@) ==> (r matches Err(e) && e@ == Flaw::FormatError(path@)),
    {
        let raw = chars_of(path);
        if raw.len() == 0 || raw[0] != '/' {
            return Err(Error::FormatError(path.to_owned()));
        }
        let cs = collapse_slashes(&raw);
        proof {
            lemma_collapse_first(raw@);
        }
        let ghost body = cs@.skip(1);
        let mut pieces: Vec<String> = Vec::new();
        let mut cur = String::new();
        let mut i: usize = 1;
        proof {
            assert(cs@.subrange(1, 1) =~= Seq::<char>::empty());
            assert(split(cs@.subrange(1, 1), '/') =~= seq![Seq::<char>::empty()]);
            assert(strings_view(pieces@).push(cur@) =~= seq![Seq::<char>::empty()]);
        }
        while i < cs.len()
            invariant
                1 <= i <= cs@.len(),
                split(cs@.subrange(1, i as int), '/') == strings_view(pieces@).push(cur@),
            decreases cs@.len() - i,
        {
            let c = cs[i];
            proof {
                assert(cs@.subrange(1, i + 1).drop_last() =~= cs@.subrange(1, i as int));
            }
            if c == '/' {
                let ghost before = strings_view(pieces@);
                pieces.push(cur);
                cur = String::new();
                proof {
                    assert(strings_view(pieces@) =~= before.push(split(cs@.subrange(1, i as int), '/').last()));
                    assert(strings_view(pieces@).push(cur@) =~= split(cs@.subrange(1, i as int), '/').push(Seq::empty()));
                }
            } else {
                let ghost old_cur = cur@;
                push_char(&mut cur, c);
                proof {
                    let p = split(cs@.subrange(1, i as int), '/');
                    assert(strings_view(pieces@).push(cur@) =~= p.update(p.len() - 1, p.last().push(c)));
                }
            }
            i = i + 1;
        }
        let ghost fwd = strings_view(pieces@).push(cur@);
        pieces.push(cur);
        assert(cs@.subrange(1, cs@.len() as int) =~= body);
        assert(strings_view(pieces@) =~= fwd);
        // the next segment stands last
        let mut out: Vec<String> = Vec::new();
        let mut k: usize = pieces.len();
        while k > 0
            invariant
                k <= pieces@.len(),
                strings_view(pieces@) == fwd,
                strings_view(out@) =~= reversed(fwd).take(pieces@.len() - k),
            decreases k,
        {
            k = k - 1;
            let s = pieces[k].clone();
            let ghost before = strings_view(out@);
            out.push(s);
            assert(strings_view(out@) =~= before.push(s@));
            assert(fwd[k as int] == pieces@[k as int]@);
            assert(reversed(fwd)[pieces@.len() - 1 - k] == fwd[k as int]);
            assert(strings_view(out@) =~= reversed(fwd).take(pieces@.len() - k));
        }
        assert(reversed(fwd).take(pieces@.len() as int) =~= reversed(fwd));
        Ok(Path(out))
    }
}

proof fn lemma_collapse_first(s: Seq<char>)
    requires
        s.len() > 0,
    ensures
        collapse(s).len() > 0,
        collapse(s)[0] == s[0],
    decreases s.len(),
{
    if s.len() > 1 {
        lemma_collapse_first(s.drop_last());
        assert(s.drop_last()[0] == s[0]);
        let p = collapse(s.drop_last());
        assert(p.push(s.last())[0] == p[0]);
    } else {
        assert(collapse(s.drop_last()).len() == 0);
        assert(collapse(s.drop_last()).push(s.last())[0] == s[0]);
    }
}


/// What a resource is annotated with.
#[derive(Debug)]
pub struct Attributes {
    pub access_rule: Option<Rule>,
    pub description: Option<String>,
}

/// The mathematical value of `Attributes`.
pub struct AttrView {
    pub rule: Option<Term>,
    pub description: Option<Seq<char>>,
}

impl View for Attributes {
    type V = AttrView;

    open spec fn view(&self) -> AttrView {
        AttrView {
            rule: match self.access_rule {
                Some(r) => Some(r@),
                None => None,
            },
            description: match self.description {
                Some(d) => Some(d@),
                None => None,
            },
        }
    }
}

impl Default for Attributes {
    fn default() -> (r: Attributes)
        ensures
            r.access_rule is None,
            r.description is None,
    {
        Attributes { access_rule: None, description: None }
    }
}

fn same_option_rule(a: &Option<Rule>, b: &Option<Rule>) -> (r: bool)
    ensures
        r == (match (a, b) {
            (Some(x), Some(y)) => x@ == y@,
            (None, None) => true,
            _ => false,
        }),
{
    match (a, b) {
        (Some(x), Some(y)) => same_rule(x, y),
        (None, None) => true,
        _ => false,
    }
}

fn same_option_string(a: &Option<String>, b: &Option<String>) -> (r: bool)
    ensures
        r == (match (a, b) {
            (Some(x), Some(y)) => x@ == y@,
            (None, None) => true,
            _ => false,
        }),
{
    match (a, b) {
        (Some(x), Some(y)) => x.eq(y),
        (None, None) => true,
        _ => false,
    }
}

impl PartialEq for Attributes {
    fn eq(&self, other: &Attributes) -> bool {
        same_option_rule(&self.access_rule, &other.access_rule) && same_option_string(
            &self.description,
            &other.description,
        )
    }
}

impl vstd::std_specs::cmp::PartialEqSpecImpl for Attributes {
    open spec fn obeys_eq_spec() -> bool {
        true
    }

    open spec fn eq_spec(&self, other: &Attributes) -> bool {
        self@ == other@
    }
}

/// A resource: its attributes and its children, keyed by name; the order
/// of the children makes no difference to its value or to `==`. A
/// parametric child `:name` is keyed by `name`, which
/// `special_child_name` then holds; a node has at most one.
#[derive(Debug)]
pub struct Hierarchy {
    pub name: String,
    pub attributes: Attributes,
    pub children: Vec<Hierarchy>,
    pub special_child_name: Option<String>,
}

/// The mathematical value of a `Hierarchy`. The children form a map
/// from name to node, so their order makes no difference; where two
/// children share a name, the first one counts, as lookups find it first.
pub struct Node {
    pub name: Seq<char>,
    pub attrs: AttrView,
    pub children: Map<Seq<char>, Node>,
    pub param: Option<Seq<char>>,
}

pub open spec fn node_of(h: Hierarchy) -> Node
    decreases h,
{
    Node {
        name: h.name@,
        attrs: h.attributes@,
        children: children_map(h.children@),
        param: match h.special_child_name {
            Some(p) => Some(p@),
            None => None,
        },
    }
}

/// The children `s` by name; an earlier child hides a later one of the same
/// name.
pub open spec fn children_map(s: Seq<Hierarchy>) -> Map<Seq<char>, Node>
    decreases s,
{
    if s.len() == 0 {
        Map::empty()
    } else {
        children_map(s.skip(1)).insert(s[0].name@, node_of(s[0]))
    }
}

impl View for Hierarchy {
    type V = Node;

    open spec fn view(&self) -> Node {
        node_of(*self)
    }
}

/// `i` is the position of the first child in `s` named `key`, or `s.len()`
/// where there is none.
pub open spec fn first_name_at(s: Seq<Hierarchy>, key: Seq<char>, i: int) -> bool {
    &&& 0 <= i <= s.len()
    &&& i < s.len() ==> s[i].name@ == key
    &&& forall|j: int| 0 <= j < i ==> #[trigger] s[j].name@ != key
}

/// The map holds `key` exactly where some child is named so, and maps it to
/// the first such child.
pub proof fn lemma_children_map(s: Seq<Hierarchy>, key: Seq<char>, i: int)
    requires
        first_name_at(s, key, i),
    ensures
        children_map(s).contains_key(key) == (i < s.len()),
        i < s.len() ==> children_map(s)[key] == node_of(s[i]),
    decreases s.len(),
{
    if s.len() > 0 && i > 0 {
        let t = s.skip(1);
        assert(s[0].name@ != key);
        assert forall|j: int| 0 <= j < i - 1 implies #[trigger] t[j].name@ != key by {
            assert(t[j] == s[j + 1]);
        }
        if i < s.len() {
            assert(t[i - 1] == s[i]);
        }
        lemma_children_map(t, key, i - 1);
    }
}

/// Every child's name is a key of the map.
proof fn lemma_child_named(s: Seq<Hierarchy>, j: int)
    requires
        0 <= j < s.len(),
    ensures
        children_map(s).contains_key(s[j].name@),
    decreases s.len(),
{
    if j > 0 {
        assert(s.skip(1)[j - 1] == s[j]);
        lemma_child_named(s.skip(1), j - 1);
    }
}

proof fn lemma_children_keys(s: Seq<Hierarchy>)
    ensures
        forall|k: Seq<char>| #[trigger] children_map(s).contains_key(k) ==> exists|i: int|
            0 <= i < s.len() && s[i].name@ == k,
    decreases s.len(),
{
    if s.len() > 0 {
        let t = s.skip(1);
        lemma_children_keys(t);
        assert forall|k: Seq<char>| #[trigger] children_map(s).contains_key(k) implies exists|i: int|
            0 <= i < s.len() && s[i].name@ == k by {
            if k == s[0].name@ {
                assert(s[0].name@ == k);
            } else {
                assert(children_map(t).contains_key(k));
                let i = choose|i: int| 0 <= i < t.len() && t[i].name@ == k;
                assert(s[i + 1] == t[i]);
            }
        }
    }
}

/// Replacing the first child of a name replaces the node under that name.
proof fn lemma_children_update(s: Seq<Hierarchy>, i: int, h: Hierarchy)
    requires
        0 <= i < s.len(),
        first_name_at(s, h.name@, i),
    ensures
        children_map(s.update(i, h)) == children_map(s).insert(h.name@, node_of(h)),
    decreases s.len(),
{
    let u = s.update(i, h);
    if i == 0 {
        assert(u.skip(1) =~= s.skip(1));
        assert(u[0] == h);
        assert(s[0].name@ == h.name@);
        assert(children_map(u) == children_map(s.skip(1)).insert(h.name@, node_of(h)));
        assert(children_map(s) == children_map(s.skip(1)).insert(h.name@, node_of(s[0])));
        assert(children_map(s.skip(1)).insert(h.name@, node_of(s[0])).insert(h.name@, node_of(h))
            =~= children_map(s.skip(1)).insert(h.name@, node_of(h)));
    } else {
        let t = s.skip(1);
        assert(u.skip(1) =~= t.update(i - 1, h));
        assert(u[0] == s[0]);
        assert forall|j: int| 0 <= j < i - 1 implies #[trigger] t[j].name@ != h.name@ by {
            assert(t[j] == s[j + 1]);
        }
        assert(t[i - 1] == s[i]);
        assert(s[0].name@ != h.name@);
        lemma_children_update(t, i - 1, h);
        assert(children_map(u) =~= children_map(s).insert(h.name@, node_of(h)));
    }
}

/// Adding a child of a new name adds the node under that name.
proof fn lemma_children_push(s: Seq<Hierarchy>, h: Hierarchy)
    requires
        forall|j: int| 0 <= j < s.len() ==> #[trigger] s[j].name@ != h.name@,
    ensures
        children_map(s.push(h)) == children_map(s).insert(h.name@, node_of(h)),
    decreases s.len(),
{
    let u = s.push(h);
    if s.len() == 0 {
        assert(u.skip(1) =~= Seq::<Hierarchy>::empty());
        assert(u[0] == h);
        assert(children_map(u.skip(1)) == Map::<Seq<char>, Node>::empty());
        assert(children_map(s) == Map::<Seq<char>, Node>::empty());
        assert(children_map(u) =~= children_map(s).insert(h.name@, node_of(h)));
    } else {
        let t = s.skip(1);
        assert(u.skip(1) =~= t.push(h));
        assert(u[0] == s[0]);
        assert forall|j: int| 0 <= j < t.len() implies #[trigger] t[j].name@ != h.name@ by {
            assert(t[j] == s[j + 1]);
        }
        lemma_children_push(t, h);
        assert(children_map(u) =~= children_map(s).insert(h.name@, node_of(h)));
    }
}

/// Whether the rule, if any, grants `op` under the bindings `c`.
pub open spec fn rule_allows(rule: Option<Term>, op: Operation, c: Seq<(Seq<char>, Term)>) -> Result<bool, Fault> {
    match rule {
        None => Ok(false),
        Some(r) => match eval_term(r, c) {
            Err(e) => Err(e),
            Ok(v) => Ok(grants(permission_of(v), op)),
        },
    }
}

/// The decision at node `n` for the path `path` that is left (next segment
/// last): the node's own rule, then the rule of its child keyed by the empty
/// name, which holds for everything below; then the walk goes on to the
/// child that the next segment selects. A parametric child is selected where
/// the segment, read as a scalar, equals the attribute it names.
pub open spec fn decide(n: Node, op: Operation, path: Seq<Seq<char>>, c: Seq<(Seq<char>, Term)>) -> Result<bool, Fault>
    decreases path.len(),
{
    match rule_allows(n.attrs.rule, op, c) {
        Err(e) => Err(e),
        Ok(true) => Ok(true),
        Ok(false) => if path.len() == 0 {
            Ok(false)
        } else {
            let blanket = if n.children.contains_key(Seq::empty()) {
                rule_allows(n.children[Seq::empty()].attrs.rule, op, c)
            } else {
                Ok(false)
            };
            match blanket {
                Err(e) => Err(e),
                Ok(true) => Ok(true),
                Ok(false) => {
                    let seg = path.last();
                    let key = match n.param {
                        Some(attr) => attr,
                        None => seg,
                    };
                    let selected = match n.param {
                        Some(attr) => match lookup(c, attr) {
                            None => Err(Fault::KeyNotInContext(attr)),
                            Some(v) => match compare(v, literal_term(seg)) {
                                Err(e) => Err(e),
                                Ok(t) => Ok(t == Term::Bool(true)),
                            },
                        },
                        None => Ok(true),
                    };
                    match selected {
                        Err(e) => Err(e),
                        Ok(false) => Ok(false),
                        Ok(true) => {
                            if n.children.contains_key(key) {
                                decide(n.children[key], op, path.drop_last(), c)
                            } else {
                                Ok(false)
                            }
                        },
                    }
                },
            }
        },
    }
}

pub open spec fn fresh_node(name: Seq<char>) -> Node {
    Node {
        name,
        attrs: AttrView { rule: None, description: None },
        children: Map::empty(),
        param: None,
    }
}

pub open spec fn is_parametric(seg: Seq<char>) -> bool {
    seg.len() > 0 && seg[0] == ':'
}

/// The node `n` with the attributes `a` given to the resource at `path`
/// (next segment last) below it, creating the nodes on the way. A resource
/// that already has a rule, or a second parametric child, is refused.
pub open spec fn insert_node(n: Node, full: Seq<char>, path: Seq<Seq<char>>, a: AttrView) -> Result<Node, Flaw>
    decreases path.len(),
{
    if path.len() == 0 {
        if n.attrs.rule is Some {
            Err(Flaw::DuplicateResource(full))
        } else {
            Ok(Node { name: n.name, attrs: a, children: n.children, param: n.param })
        }
    } else {
        let seg = path.last();
        if is_parametric(seg) && n.param is Some {
            Err(Flaw::AmbiguousResource(full, n.param->Some_0))
        } else {
            let key = if is_parametric(seg) {
                seg.skip(1)
            } else {
                seg
            };
            let child = if n.children.contains_key(key) {
                n.children[key]
            } else {
                fresh_node(key)
            };
            match insert_node(child, full, path.drop_last(), a) {
                Err(e) => Err(e),
                Ok(c2) => Ok(
                    Node {
                        name: n.name,
                        attrs: n.attrs,
                        children: n.children.insert(key, c2),
                        param: if is_parametric(seg) {
                            Some(key)
                        } else {
                            n.param
                        },
                    },
                ),
            }
        }
    }
}

/// The hierarchy that the entries build, inserted in order into an empty
/// root named by the empty string.
pub open spec fn build(entries: Seq<(Seq<char>, AttrView)>) -> Result<Node, Flaw>
    decreases entries.len(),
{
    if entries.len() == 0 {
        Ok(fresh_node(Seq::empty()))
    } else {
        match build(entries.drop_last()) {
            Err(e) => Err(e),
            Ok(root) => {
                let p = entries.last().0;
                if !is_path(p) {
                    Err(Flaw::FormatError(p))
                } else {
                    insert_node(root, p, segments(p), entries.last().1)
                }
            },
        }
    }
}

/// Whether the rule, if any, grants `to`.
fn allows(rule: &Option<Rule>, to: Operation, with: &Context) -> (r: Result<bool, rule::Error>)
    ensures
        match rule_allows(
            match rule {
                Some(x) => Some(x@),
                None => None,
            },
            to,
            with@,
        ) {
            Ok(b) => r == Ok::<bool, rule::Error>(b),
            Err(e) => r matches Err(x) && x@ == e,
        },
{
    match rule {
        None => Ok(false),
        Some(x) => match x.eval(with) {
            Err(e) => Err(e),
            Ok(v) => Ok(to.allowed_for(permission_from(&v))),
        },
    }
}

impl Hierarchy {
    #[must_use]
    pub fn new(name: String, attributes: Attributes) -> (r: Self)
        ensures
            r@ == (Node {
                name: name@,
                attrs: attributes@,
                children: Map::empty(),
                param: None,
            }),
    {
        Hierarchy { name, attributes, children: Vec::new(), special_child_name: None }
    }

    /// The position of the first child named `key`, or the number of
    /// children where there is none.
    fn find_child(&self, key: &String) -> (k: usize)
        ensures
            first_name_at(self.children@, key@, k as int),
            self@.children.contains_key(key@) == (k < self.children@.len()),
            k < self.children@.len() ==> self@.children[key@] == self.children@[k as int]@,
    {
        let mut k: usize = 0;
        while k < self.children.len()
            invariant
                k <= self.children@.len(),
                forall|j: int| 0 <= j < k ==> #[trigger] self.children@[j].name@ != key@,
            ensures
                k <= self.children@.len(),
                k < self.children@.len() ==> self.children@[k as int].name@ == key@,
                forall|j: int| 0 <= j < k ==> #[trigger] self.children@[j].name@ != key@,
            decreases self.children@.len() - k,
        {
            if self.children[k].name.eq(key) {
                break;
            }
            k = k + 1;
        }
        proof {
            lemma_children_map(self.children@, key@, k as int);
        }
        k
    }

    /// The decision at this node for the segments `segs[..k]`, the next one
    /// last.
    fn walk(&self, to: Operation, segs: &Vec<String>, k: usize, with: &Context) -> (r: Result<bool, rule::Error>)
        requires
            k <= segs@.len(),
        ensures
            match decide(self@, to, strings_view(segs@).take(k as int), with@) {
                Ok(b) => r == Ok::<bool, rule::Error>(b),
                Err(e) => r matches Err(x) && x@ == e,
            },
        decreases k,
    {
        let ghost path = strings_view(segs@).take(k as int);
        match allows(&self.attributes.access_rule, to, with) {
            Err(e) => return Err(e),
            Ok(true) => return Ok(true),
            Ok(false) => {},
        }
        if k == 0 {
            return Ok(false);
        }
        let empty = String::new();
        let b = self.find_child(&empty);
        if b < self.children.len() {
            match allows(&self.children[b].attributes.access_rule, to, with) {
                Err(e) => return Err(e),
                Ok(true) => return Ok(true),
                Ok(false) => {},
            }
        }
        let seg = &segs[k - 1];
        assert(path.last() == seg@);
        assert(path.drop_last() =~= strings_view(segs@).take(k - 1));
        let key = match &self.special_child_name {
            Some(attr) => {
                let v = match with.get(attr) {
                    Ok(v) => v,
                    Err(e) => return Err(e),
                };
                let s = literal_rule(seg.as_str());
                match equal(v, &s) {
                    Err(e) => return Err(e),
                    Ok(Rule::Bool(true)) => {},
                    Ok(t) => {
                        assert(t@ != Term::Bool(true));
                        return Ok(false);
                    },
                }
                attr.clone()
            },
            None => seg.clone(),
        };
        let c = self.find_child(&key);
        if c < self.children.len() {
            proof {
                assert(decreases_to!(k => (k - 1) as usize));
            }
            self.children[c].walk(to, segs, k - 1, with)
        } else {
            Ok(false)
        }
    }

    /// Whether `to` is allowed on the resource at `on` under `with`; see
    /// `decide`. The path is left as it was.
    pub fn is_allowed(&self, to: Operation, on: &mut Path, with: &Context) -> (r: Result<bool, rule::Error>)
        ensures
            match decide(self@, to, old(on)@, with@) {
                Ok(b) => r == Ok::<bool, rule::Error>(b),
                Err(e) => r matches Err(x) && x@ == e,
            },
            final(on)@ == old(on)@,
    {
        let n = on.0.len();
        assert(strings_view(on.0@).take(n as int) =~= on@);
        self.walk(to, &on.0, n, with)
    }

    /// Gives `attributes` to the resource at `segs[..k]` (next segment last)
    /// below this node; on failure the node is left as it was.
    fn insert_at(&mut self, full_path: &str, segs: &Vec<String>, k: usize, attributes: Attributes) -> (r: Result<(), Error>)
        requires
            k <= segs@.len(),
        ensures
            match insert_node(old(self)@, full_path@, strings_view(segs@).take(k as int), attributes@) {
                Ok(n) => r is Ok && final(self)@ == n,
                Err(e) => r matches Err(x) && x@ == e && final(self)@ == old(self)@,
            },
        decreases k,
    {
        let ghost path = strings_view(segs@).take(k as int);
        let ghost before = self@;
        if k == 0 {
            if self.attributes.access_rule.is_some() {
                return Err(Error::DuplicateResource(full_path.to_owned()));
            }
            self.attributes = attributes;
            return Ok(());
        }
        let seg = &segs[k - 1];
        assert(path.last() == seg@);
        assert(path.drop_last() =~= strings_view(segs@).take(k - 1));
        let cs = chars_of(seg.as_str());
        let parametric = cs.len() > 0 && cs[0] == ':';
        if parametric {
            if let Some(other) = &self.special_child_name {
                return Err(Error::AmbiguousResource(full_path.to_owned(), other.clone()));
            }
        }
        let key = if parametric {
            string_of(&cs, 1, cs.len())
        } else {
            seg.clone()
        };
        assert(key@ == (if is_parametric(seg@) { seg@.skip(1) } else { seg@ }));
        let c = self.find_child(&key);
        let had = c < self.children.len();
        let ghost kids = self.children@;
        let mut child = if had {
            self.children.remove(c)
        } else {
            Hierarchy::new(key.clone(), Attributes::default())
        };
        let ghost child0 = child@;
        assert(child0 == (if had { before.children[key@] } else { fresh_node(key@) }));
        assert(child.name@ == key@);
        proof {
            assert(decreases_to!(k => (k - 1) as usize));
        }
        match child.insert_at(full_path, segs, k - 1, attributes) {
            Err(e) => {
                if had {
                    self.children.insert(c, child);
                    proof {
                        let h = self.children@[c as int];
                        assert(self.children@ =~= kids.update(c as int, h));
                        lemma_children_update(kids, c as int, h);
                        assert(children_map(kids).insert(key@, h@) =~= children_map(kids));
                    }
                }
                return Err(e);
            },
            Ok(()) => {
                let ghost c2 = child@;
                assert(child.name@ == key@);
                if had {
                    self.children.insert(c, child);
                    proof {
                        let h = self.children@[c as int];
                        assert(self.children@ =~= kids.update(c as int, h));
                        lemma_children_update(kids, c as int, h);
                    }
                } else {
                    self.children.push(child);
                    proof {
                        lemma_children_push(kids, self.children@.last());
                        assert(self.children@ =~= kids.push(self.children@.last()));
                    }
                }
                if parametric {
                    self.special_child_name = Some(key);
                }
                Ok(())
            },
        }
    }

    /// Gives `attributes` to the resource at `path`, below this node, under
    /// the name `full_path`; the path is left as it was. A resource that
    /// already has a rule fails with `DuplicateResource`; a second
    /// parametric child of one node fails with `AmbiguousResource`, naming
    /// the first. On failure the hierarchy is left as it was.
    pub fn insert(&mut self, full_path: &str, path: &mut Path, attributes: Attributes) -> (r: Result<(), Error>)
        ensures
            match insert_node(old(self)@, full_path@, old(path)@, attributes@) {
                Ok(n) => r is Ok && final(self)@ == n,
                Err(e) => r matches Err(x) && x@ == e && final(self)@ == old(self)@,
            },
            final(path)@ == old(path)@,
    {
        let n = path.0.len();
        assert(strings_view(path.0@).take(n as int) =~= path@);
        self.insert_at(full_path, &path.0, n, attributes)
    }

    /// The hierarchy that the configuration describes: each resource is
    /// inserted, in order, into a root named by the empty string.
    ///
    /// The root is always an interior node named by the empty string, and
    /// the order of the entries makes no difference (`lemma_build_swap`).
    pub fn try_from(config: Config) -> (r: Result<Hierarchy, Error>)
        requires
            config.wf(),
        ensures
            match build(config_view(config.resources@)) {
                Ok(n) => r matches Ok(h) && h@ == n,
                Err(e) => r matches Err(x) && x@ == e,
            },
            r matches Ok(h) ==> h@.name == Seq::<char>::empty() && h@.attrs.rule is None,
    {
        proof {
            lemma_build_root(config_view(config.resources@));
        }
        let ghost entries = config_view(config.resources@);
        let mut rest = config.resources;
        let mut root = Hierarchy::new(String::new(), Attributes::default());
        let n = rest.len();
        let mut i: usize = 0;
        proof {
            assert(entries.take(0) =~= Seq::<(Seq<char>, AttrView)>::empty());
            assert(root@ == fresh_node(Seq::empty()));
        }
        while i < n
            invariant
                n == entries.len(),
                entries == config_view(config.resources@),
                i <= n,
                rest@.len() == n - i,
                config_view(rest@) == entries.skip(i as int),
                build(entries.take(i as int)) == Ok::<Node, Flaw>(root@),
            decreases n - i,
        {
            assert(config_view(rest@)[0] == entries[i as int]);
            let ghost old_rest = rest@;
            let (path, attributes) = rest.remove(0);
            proof {
                assert(rest@ =~= old_rest.skip(1));
                assert forall|j: int| 0 <= j < rest@.len() implies #[trigger] config_view(rest@)[j] == entries.skip(i + 1)[j] by {
                    assert(config_view(old_rest)[j + 1] == entries.skip(i as int)[j + 1]);
                }
                assert(config_view(rest@) =~= entries.skip(i + 1));
                assert(entries.take(i + 1).drop_last() =~= entries.take(i as int));
                assert(entries.take(i + 1).last() == (path@, attributes@));
            }
            let mut p = match Path::from_str(path.as_str()) {
                Ok(p) => p,
                Err(e) => {
                    proof {
                        assert(build(entries.take(i + 1)) == Err::<Node, Flaw>(e@));
                        lemma_build_prefix_err(entries, i + 1);
                    }
                    return Err(e);
                },
            };
            let ghost a = attributes@;
            let ghost r0 = root@;
            match root.insert(path.as_str(), &mut p, attributes) {
                Ok(()) => {},
                Err(e) => {
                    proof {
                        assert(insert_node(r0, path@, segments(path@), a) == Err::<Node, Flaw>(e@));
                        assert(build(entries.take(i + 1)) == Err::<Node, Flaw>(e@));
                        lemma_build_prefix_err(entries, i + 1);
                    }
                    return Err(e);
                },
            }
            i = i + 1;
        }
        assert(entries.take(n as int) =~= entries);
        Ok(root)
    }
}

proof fn lemma_segments_nonempty(p: Seq<char>)
    ensures
        segments(p).len() >= 1,
{
    lemma_split_len(collapse(p).skip(1), '/');
}

/// The root that entries build is an interior node named by the empty
/// string: every path has at least one segment.
pub proof fn lemma_build_root(e: Seq<(Seq<char>, AttrView)>)
    ensures
        build(e) matches Ok(n) ==> n.name == Seq::<char>::empty() && n.attrs.rule is None,
    decreases e.len(),
{
    if e.len() > 0 {
        lemma_build_root(e.drop_last());
        lemma_segments_nonempty(e.last().0);
    }
}

/// The key under which a path segment stores its child.
pub open spec fn seg_key(seg: Seq<char>) -> Seq<char> {
    if is_parametric(seg) {
        seg.skip(1)
    } else {
        seg
    }
}

pub open spec fn child_or_fresh(n: Node, key: Seq<char>) -> Node {
    if n.children.contains_key(key) {
        n.children[key]
    } else {
        fresh_node(key)
    }
}

/// Two insertions give the same node in either order, where both orders
/// succeed and at least one of them gives a rule.
pub proof fn lemma_insert_commute(
    n: Node,
    f1: Seq<char>,
    p1: Seq<Seq<char>>,
    a1: AttrView,
    f2: Seq<char>,
    p2: Seq<Seq<char>>,
    a2: AttrView,
)
    requires
        a1.rule is Some || a2.rule is Some,
        insert_node(n, f1, p1, a1) is Ok,
        insert_node(insert_node(n, f1, p1, a1)->Ok_0, f2, p2, a2) is Ok,
        insert_node(n, f2, p2, a2) is Ok,
        insert_node(insert_node(n, f2, p2, a2)->Ok_0, f1, p1, a1) is Ok,
    ensures
        insert_node(insert_node(n, f1, p1, a1)->Ok_0, f2, p2, a2) == insert_node(
            insert_node(n, f2, p2, a2)->Ok_0,
            f1,
            p1,
            a1,
        ),
    decreases p1.len() + p2.len(),
{
    let n1 = insert_node(n, f1, p1, a1)->Ok_0;
    let n2 = insert_node(n, f2, p2, a2)->Ok_0;
    let r12 = insert_node(n1, f2, p2, a2)->Ok_0;
    let r21 = insert_node(n2, f1, p1, a1)->Ok_0;
    if p1.len() == 0 && p2.len() == 0 {
        assert(n1.attrs == a1);
        assert(n2.attrs == a2);
    } else if p1.len() == 0 {
        let k2 = seg_key(p2.last());
        assert(n1.children == n.children && n1.param == n.param && n1.attrs == a1);
        assert(r12.children == n2.children && r12.param == n2.param);
        assert(r12 == r21);
    } else if p2.len() == 0 {
        assert(n2.children == n.children && n2.param == n.param && n2.attrs == a2);
        assert(r21.children == n1.children && r21.param == n1.param);
        assert(r12 == r21);
    } else {
        let k1 = seg_key(p1.last());
        let k2 = seg_key(p2.last());
        let c1 = insert_node(child_or_fresh(n, k1), f1, p1.drop_last(), a1)->Ok_0;
        let c2 = insert_node(child_or_fresh(n, k2), f2, p2.drop_last(), a2)->Ok_0;
        assert(n1.children == n.children.insert(k1, c1));
        assert(n2.children == n.children.insert(k2, c2));
        assert(!(is_parametric(p1.last()) && is_parametric(p2.last())));
        if k1 != k2 {
            assert(child_or_fresh(n1, k2) == child_or_fresh(n, k2));
            assert(child_or_fresh(n2, k1) == child_or_fresh(n, k1));
            assert(r12.children == n.children.insert(k1, c1).insert(k2, c2));
            assert(r21.children == n.children.insert(k2, c2).insert(k1, c1));
            assert(n.children.insert(k1, c1).insert(k2, c2) =~= n.children.insert(k2, c2).insert(
                k1,
                c1,
            ));
            assert(r12 == r21);
        } else {
            let child0 = child_or_fresh(n, k1);
            assert(child_or_fresh(n1, k1) == c1);
            assert(child_or_fresh(n2, k1) == c2);
            lemma_insert_commute(child0, f1, p1.drop_last(), a1, f2, p2.drop_last(), a2);
            let c12 = insert_node(c1, f2, p2.drop_last(), a2)->Ok_0;
            assert(r12.children == n.children.insert(k1, c1).insert(k1, c12));
            assert(n.children.insert(k1, c1).insert(k1, c12) =~= n.children.insert(k2, c2).insert(
                k1,
                c12,
            ));
            assert(r12 == r21);
        }
    }
}

/// `e` with the entries at `i` and `i + 1` exchanged.
pub open spec fn swapped<A>(e: Seq<A>, i: int) -> Seq<A> {
    e.update(i, e[i + 1]).update(i + 1, e[i])
}

proof fn lemma_build_prefix_ok(entries: Seq<(Seq<char>, AttrView)>, i: int)
    requires
        0 <= i <= entries.len(),
        build(entries) is Ok,
    ensures
        build(entries.take(i)) is Ok,
{
    if build(entries.take(i)) is Err {
        lemma_build_prefix_err(entries, i);
    }
}

/// Builds that agree on a prefix agree on every longer prefix of entries
/// that are the same from there on.
proof fn lemma_build_same_tail(e: Seq<(Seq<char>, AttrView)>, f: Seq<(Seq<char>, AttrView)>, i: int, j: int)
    requires
        e.len() == f.len(),
        0 <= i <= j <= e.len(),
        build(e.take(i)) == build(f.take(i)),
        forall|k: int| i <= k < e.len() ==> e[k] == f[k],
    ensures
        build(e.take(j)) == build(f.take(j)),
    decreases j - i,
{
    if i < j {
        assert(e.take(i + 1).drop_last() =~= e.take(i));
        assert(f.take(i + 1).drop_last() =~= f.take(i));
        assert(e.take(i + 1).last() == f.take(i + 1).last());
        lemma_build_same_tail(e, f, i + 1, j);
    }
}

/// The order of the entries makes no difference: exchanging two
/// neighbouring entries, one of which gives a rule, leaves the built
/// hierarchy as it was, wherever both orders build one.
pub proof fn lemma_build_swap(e: Seq<(Seq<char>, AttrView)>, i: int)
    requires
        0 <= i,
        i + 1 < e.len(),
        e[i].1.rule is Some || e[i + 1].1.rule is Some,
        build(e) is Ok,
        build(swapped(e, i)) is Ok,
    ensures
        build(e) == build(swapped(e, i)),
{
    let f = swapped(e, i);
    lemma_build_prefix_ok(e, i + 2);
    lemma_build_prefix_ok(f, i + 2);
    lemma_build_prefix_ok(e, i + 1);
    lemma_build_prefix_ok(f, i + 1);
    assert(e.take(i) =~= f.take(i));
    assert(e.take(i + 1).drop_last() =~= e.take(i));
    assert(f.take(i + 1).drop_last() =~= f.take(i));
    assert(e.take(i + 2).drop_last() =~= e.take(i + 1));
    assert(f.take(i + 2).drop_last() =~= f.take(i + 1));
    let root = build(e.take(i))->Ok_0;
    let x = e[i];
    let y = e[i + 1];
    assert(e.take(i + 1).last() == x && e.take(i + 2).last() == y);
    assert(f.take(i + 1).last() == y && f.take(i + 2).last() == x);
    assert(is_path(x.0) && is_path(y.0));
    lemma_insert_commute(root, x.0, segments(x.0), x.1, y.0, segments(y.0), y.1);
    assert(build(e.take(i + 2)) == build(f.take(i + 2)));
    lemma_build_same_tail(e, f, i + 2, e.len() as int);
    assert(e.take(e.len() as int) =~= e);
    assert(f.take(f.len() as int) =~= f);
}

pub open spec fn config_view(v: Seq<(String, Attributes)>) -> Seq<(Seq<char>, AttrView)> {
    v.map_values(|e: (String, Attributes)| (e.0@, e.1@))
}

/// Once a prefix of the entries fails, the whole fails alike.
proof fn lemma_build_prefix_err(entries: Seq<(Seq<char>, AttrView)>, i: int)
    requires
        0 <= i <= entries.len(),
        build(entries.take(i)) is Err,
    ensures
        build(entries) == build(entries.take(i)),
    decreases entries.len() - i,
{
    if i < entries.len() {
        assert(entries.take(i + 1).drop_last() =~= entries.take(i));
        lemma_build_prefix_err(entries, i + 1);
    } else {
        assert(entries.take(i) =~= entries);
    }
}

/// Whether `a` and `b` are the same hierarchy: children are compared by
/// name, whatever their order.
pub fn same_node(a: &Hierarchy, b: &Hierarchy) -> (r: bool)
    ensures
        r == (a@ == b@),
    decreases a,
{
    if !a.name.eq(&b.name) || !a.attributes.eq(&b.attributes) || !same_option_string(
        &a.special_child_name,
        &b.special_child_name,
    ) {
        return false;
    }
    let ghost am = a@.children;
    let ghost bm = b@.children;
    proof {
        lemma_children_keys(a.children@);
        lemma_children_keys(b.children@);
    }
    let n = a.children.len();
    let mut i: usize = 0;
    while i < n
        invariant
            n == a.children@.len(),
            i <= n,
            am == a@.children,
            bm == b@.children,
            forall|j: int|
                0 <= j < i ==> bm.contains_key(#[trigger] a.children@[j].name@) && bm[a.children@[j].name@]
                    == am[a.children@[j].name@],
        decreases n - i,
    {
        let first = a.find_child(&a.children[i].name);
        if first == i {
            let j = b.find_child(&a.children[i].name);
            if j == b.children.len() {
                return false;
            }
            proof {
                assert(decreases_to!(*a => a.children));
                assert(decreases_to!(a.children => a.children[i as int]));
            }
            if !same_node(&a.children[i], &b.children[j]) {
                return false;
            }
        } else {
            assert(a.children@[first as int].name@ == a.children@[i as int].name@);
        }
        i = i + 1;
    }
    let m = b.children.len();
    let mut j: usize = 0;
    while j < m
        invariant
            m == b.children@.len(),
            j <= m,
            am == a@.children,
            bm == b@.children,
            forall|x: int| 0 <= x < j ==> am.contains_key(#[trigger] b.children@[x].name@),
        decreases m - j,
    {
        let k = a.find_child(&b.children[j].name);
        if k == a.children.len() {
            proof {
                lemma_child_named(b.children@, j as int);
            }
            return false;
        }
        j = j + 1;
    }
    assert forall|key: Seq<char>| #[trigger] am.dom().contains(key) == bm.dom().contains(key) && (
    am.dom().contains(key) ==> bm[key] == am[key]) by {
        if am.contains_key(key) {
            assert(children_map(a.children@).contains_key(key));
            let x = choose|x: int| 0 <= x < a.children@.len() && a.children@[x].name@ == key;
            assert(bm.contains_key(a.children@[x].name@));
        }
        if bm.contains_key(key) {
            assert(children_map(b.children@).contains_key(key));
            let x = choose|x: int| 0 <= x < b.children@.len() && b.children@[x].name@ == key;
            assert(am.contains_key(b.children@[x].name@));
        }
    }
    assert(am.dom() =~= bm.dom());
    assert(am =~= bm);
    true
}

impl PartialEq for Hierarchy {
    fn eq(&self, other: &Hierarchy) -> bool {
        same_node(self, other)
    }
}

impl vstd::std_specs::cmp::PartialEqSpecImpl for Hierarchy {
    open spec fn obeys_eq_spec() -> bool {
        true
    }

    open spec fn eq_spec(&self, other: &Hierarchy) -> bool {
        self@ == other@
    }
}

/// No two `/` stand next to each other in `s`.
pub open spec fn single_slashes(s: Seq<char>) -> bool {
    forall|i: int| 0 < i < s.len() ==> !(#[trigger] s[i] == '/' && s[i - 1] == '/')
}

proof fn lemma_collapse_single(s: Seq<char>)
    ensures
        single_slashes(collapse(s)),
        s.len() > 0 ==> collapse(s).len() > 0 && collapse(s).last() == s.last(),
    decreases s.len(),
{
    if s.len() > 0 {
        lemma_collapse_single(s.drop_last());
        let p = collapse(s.drop_last());
        if !(s.last() == '/' && p.len() > 0 && p.last() == '/') {
            let q = p.push(s.last());
            assert forall|i: int| 0 < i < q.len() implies !(#[trigger] q[i] == '/' && q[i - 1] == '/') by {
                if i < p.len() {
                    assert(q[i] == p[i] && q[i - 1] == p[i - 1]);
                }
            }
        }
    }
}

proof fn lemma_collapse_fixed(s: Seq<char>)
    requires
        single_slashes(s),
    ensures
        collapse(s) == s,
    decreases s.len(),
{
    if s.len() > 0 {
        let d = s.drop_last();
        assert forall|i: int| 0 < i < d.len() implies !(#[trigger] d[i] == '/' && d[i - 1] == '/') by {
            assert(d[i] == s[i] && d[i - 1] == s[i - 1]);
        }
        lemma_collapse_fixed(d);
        if d.len() > 0 {
            assert(s[s.len() - 1] == s.last() && s[s.len() - 2] == d.last());
        }
        assert(d.push(s.last()) =~= s);
    }
}

/// Normalizing a path, by collapsing its runs of `/`, gives a path with the
/// same segments, and normalizing again changes nothing.
pub proof fn lemma_path_normalization(p: Seq<char>)
    requires
        is_path(p),
    ensures
        is_path(collapse(p)),
        segments(collapse(p)) == segments(p),
        collapse(collapse(p)) == collapse(p),
{
    lemma_collapse_single(p);
    lemma_collapse_fixed(collapse(p));
    lemma_collapse_first(p);
}

/// The pieces `ps` joined by `/`.
pub open spec fn join(ps: Seq<Seq<char>>) -> Seq<char>
    decreases ps.len(),
{
    if ps.len() == 0 {
        Seq::empty()
    } else if ps.len() == 1 {
        ps[0]
    } else {
        join(ps.drop_last()) + seq!['/'] + ps.last()
    }
}

/// The path written from its segments (last segment first).
pub open spec fn render(segs: Seq<Seq<char>>) -> Seq<char> {
    seq!['/'] + join(reversed(segs))
}

proof fn lemma_join_split(s: Seq<char>)
    ensures
        join(split(s, '/')) == s,
    decreases s.len(),
{
    if s.len() == 0 {
        assert(s =~= Seq::<char>::empty());
    } else {
        let d = s.drop_last();
        let c = s.last();
        lemma_join_split(d);
        lemma_split_len(d, '/');
        let pp = split(d, '/');
        if c == '/' {
            let q = pp.push(Seq::empty());
            assert(q.drop_last() =~= pp);
            assert(d + seq!['/'] + Seq::<char>::empty() =~= s);
        } else {
            let q = pp.update(pp.len() - 1, pp.last().push(c));
            if pp.len() == 1 {
                assert(q[0] == pp[0].push(c));
                assert(d.push(c) =~= s);
            } else {
                assert(q.drop_last() =~= pp.drop_last());
                assert(q.last() == pp.last().push(c));
                assert(join(pp.drop_last()) + seq!['/'] + pp.last().push(c) =~= (join(pp.drop_last())
                    + seq!['/'] + pp.last()).push(c));
                assert(d.push(c) =~= s);
            }
        }
    }
}

/// Writing a path again from its segments gives its normal form, which has
/// the same segments: `Path::from_str` of it gives the same `Path`.
pub proof fn lemma_path_render(p: Seq<char>)
    requires
        is_path(p),
    ensures
        render(segments(p)) == collapse(p),
        is_path(render(segments(p))),
        segments(render(segments(p))) == segments(p),
{
    let q = collapse(p);
    lemma_path_normalization(p);
    lemma_collapse_first(p);
    let ps = split(q.skip(1), '/');
    assert(reversed(reversed(ps)) =~= ps);
    lemma_join_split(q.skip(1));
    assert(seq!['/'] + q.skip(1) =~= q);
}

/// Where a node's own rule grants the operation, the decision there is to
/// allow, whatever lies below.
pub proof fn lemma_own_rule_allows(n: Node, op: Operation, path: Seq<Seq<char>>, c: Seq<(Seq<char>, Term)>)
    requires
        rule_allows(n.attrs.rule, op, c) == Ok::<bool, Fault>(true),
    ensures
        decide(n, op, path, c) == Ok::<bool, Fault>(true),
{
}

/// The rule of the child keyed by the empty name (written with a trailing
/// `/`) holds for every path below the node: where it grants the
/// operation, and the node's own rule evaluates, the decision for any
/// non-empty rest of the path is to allow.
pub proof fn lemma_blanket_rule_allows(n: Node, op: Operation, path: Seq<Seq<char>>, c: Seq<(Seq<char>, Term)>)
    requires
        path.len() > 0,
        rule_allows(n.attrs.rule, op, c) is Ok,
        n.children.contains_key(Seq::empty()),
        rule_allows(n.children[Seq::empty()].attrs.rule, op, c) == Ok::<bool, Fault>(true),
    ensures
        decide(n, op, path, c) == Ok::<bool, Fault>(true),
{
}

/// No `/` in `s`.
pub open spec fn no_slash(s: Seq<char>) -> bool {
    forall|i: int| 0 <= i < s.len() ==> #[trigger] s[i] != '/'
}

proof fn lemma_split_plain(x: Seq<char>)
    requires
        no_slash(x),
    ensures
        split(x, '/') == seq![x],
    decreases x.len(),
{
    if x.len() > 0 {
        let d = x.drop_last();
        assert forall|i: int| 0 <= i < d.len() implies #[trigger] d[i] != '/' by {
            assert(d[i] == x[i]);
        }
        lemma_split_plain(d);
        assert(x[x.len() - 1] != '/');
        assert(d.push(x.last()) =~= x);
        assert(seq![d].update(0, d.push(x.last())) =~= seq![x]);
    } else {
        assert(x =~= Seq::<char>::empty());
    }
}

proof fn lemma_split_after(t: Seq<char>, y: Seq<char>)
    requires
        no_slash(y),
    ensures
        split(t + seq!['/'] + y, '/') == split(t, '/').push(y),
    decreases y.len(),
{
    let u = t + seq!['/'] + y;
    if y.len() == 0 {
        assert(y =~= Seq::<char>::empty());
        assert(u =~= t.push('/'));
        assert(u.drop_last() =~= t);
    } else {
        let d = y.drop_last();
        assert forall|i: int| 0 <= i < d.len() implies #[trigger] d[i] != '/' by {
            assert(d[i] == y[i]);
        }
        lemma_split_after(t, d);
        assert(u.drop_last() =~= t + seq!['/'] + d);
        assert(u.last() == y.last());
        assert(y[y.len() - 1] != '/');
        lemma_split_len(t, '/');
        let p = split(t, '/').push(d);
        assert(d.push(y.last()) =~= y);
        assert(p.update(p.len() - 1, p.last().push(y.last())) =~= split(t, '/').push(y));
    }
}

/// The segments of `/x/` followed by `y`, last segment first.
proof fn lemma_segments_two(x: Seq<char>, y: Seq<char>)
    requires
        x.len() > 0,
        no_slash(x),
        no_slash(y),
    ensures
        segments(seq!['/'] + x + seq!['/'] + y) == seq![y, x],
{
    let p = seq!['/'] + x + seq!['/'] + y;
    assert forall|i: int| 0 < i < p.len() implies !(#[trigger] p[i] == '/' && p[i - 1] == '/') by {
        if 1 <= i <= x.len() {
            assert(p[i] == x[i - 1]);
        } else if i == x.len() + 1 {
            assert(p[i - 1] == x[i - 2]);
        } else if i > x.len() + 1 {
            assert(p[i] == y[i - x.len() - 2]);
        }
    }
    lemma_collapse_fixed(p);
    assert(p.skip(1) =~= x + seq!['/'] + y);
    lemma_split_after(x, y);
    lemma_split_plain(x);
    assert(seq![x].push(y) =~= seq![x, y]);
    assert(reversed(seq![x, y]) =~= seq![y, x]);
}

/// The rule `(list read)` as it reads.
pub open spec fn list_read() -> Term {
    Term::Tuple(seq![Term::List(seq!['l', 'i', 's', 't']), Term::String(op_name(Operation::Read))])
}

/// What `(list read)` grants: reading, and nothing else.
proof fn lemma_list_read(op: Operation, c: Seq<(Seq<char>, Term)>)
    ensures
        rule_allows(Some(list_read()), op, c) == Ok::<bool, Fault>(op == Operation::Read),
{
    let r = list_read();
    let cs = r->Tuple_0;
    let rd = Term::String(op_name(Operation::Read));
    assert(cs.skip(1) =~= seq![rd]);
    assert(seq![rd].drop_last() =~= Seq::<Term>::empty());
    assert(op_name(Operation::Read)[0] == 'r');
    assert(eval_term(rd, c) == Ok::<Term, Fault>(rd));
    assert(Seq::<Term>::empty().push(rd) =~= seq![rd]);
    assert(seq![rd].last() == rd);
    assert(eval_items(seq![rd].drop_last(), c) == Ok::<Seq<Term>, Fault>(Seq::empty()));
    assert(eval_items(seq![rd], c) == Ok::<Seq<Term>, Fault>(seq![rd]));
    let items = seq![rd];
    assert(eval_term(r, c) == Ok::<Term, Fault>(Term::Tuple(items)));
    assert(is_op_name(items[0]->String_0));
    assert forall|w: Seq<char>| names(items, w) == (w == op_name(Operation::Read)) by {
        if w == op_name(Operation::Read) {
            assert(items[0] == Term::String(w));
        }
    }
    assert(!names(items, all_word()));
    assert(!names(items, op_name(Operation::Create)));
    assert(!names(items, op_name(Operation::Update)));
    assert(!names(items, op_name(Operation::Delete)));
    assert(!names(items, op_name(Operation::List)));
    assert(permission_of(Term::Tuple(items)) == named_bits(items));
    lemma_named_bits(items, op);
    assert(names(items, op_name(op)) == (op == Operation::Read)) by {
        match op {
            Operation::Read => {},
            Operation::Create => {},
            Operation::Update => {},
            Operation::Delete => {},
            Operation::List => {},
        }
    }
}

/// A rule on `/x/` is inherited below `/x`: where the configuration holds
/// only `/x/` with the rule `(list read)`, reading any `/x/y` is allowed
/// and creating it is not, whatever the bindings.
pub proof fn lemma_inherited_rule(x: Seq<char>, y: Seq<char>, a: AttrView, c: Seq<(Seq<char>, Term)>)
    requires
        x.len() > 0,
        x[0] != ':',
        no_slash(x),
        y.len() > 0,
        no_slash(y),
        a.rule == Some(list_read()),
    ensures
        build(seq![(seq!['/'] + x + seq!['/'], a)]) matches Ok(root) && decide(
            root,
            Operation::Read,
            segments(seq!['/'] + x + seq!['/'] + y),
            c,
        ) == Ok::<bool, Fault>(true) && decide(
            root,
            Operation::Create,
            segments(seq!['/'] + x + seq!['/'] + y),
            c,
        ) == Ok::<bool, Fault>(false),
{
    let p0 = seq!['/'] + x + seq!['/'];
    let e = seq![(p0, a)];
    let empty = Seq::<char>::empty();
    assert(p0 =~= seq!['/'] + x + seq!['/'] + empty);
    lemma_segments_two(x, empty);
    lemma_segments_two(x, y);
    assert(e.drop_last() =~= Seq::<(Seq<char>, AttrView)>::empty());
    assert(is_path(p0));
    let leaf = Node { name: empty, attrs: a, children: Map::empty(), param: None };
    let xn = Node {
        name: x,
        attrs: AttrView { rule: None, description: None },
        children: Map::empty().insert(empty, leaf),
        param: None,
    };
    let root = Node {
        name: empty,
        attrs: AttrView { rule: None, description: None },
        children: Map::empty().insert(x, xn),
        param: None,
    };
    assert(seq![empty, x].drop_last() =~= seq![empty]);
    assert(seq![empty].drop_last() =~= Seq::<Seq<char>>::empty());
    assert(!is_parametric(x));
    assert(!is_parametric(empty));
    assert(seg_key(x) == x);
    assert(insert_node(fresh_node(empty), p0, Seq::empty(), a) == Ok::<Node, Flaw>(leaf));
    assert(insert_node(fresh_node(x), p0, seq![empty], a) == Ok::<Node, Flaw>(xn));
    assert(insert_node(fresh_node(empty), p0, seq![empty, x], a) == Ok::<Node, Flaw>(root));
    assert(build(e.drop_last()) == Ok::<Node, Flaw>(fresh_node(empty)));
    assert(e.last() == (p0, a));
    assert(segments(p0) == seq![empty, x]);
    assert(build(e) == Ok::<Node, Flaw>(root));
    assert(x != empty);
    assert(y != empty);
    lemma_list_read(Operation::Read, c);
    lemma_list_read(Operation::Create, c);
    let path = seq![y, x];
    assert(path.drop_last() =~= seq![y]);
    assert(seq![y].drop_last() =~= Seq::<Seq<char>>::empty());
    assert(!root.children.contains_key(empty));
    assert(root.children[x] == xn);
    assert(xn.children.contains_key(empty) && xn.children[empty] == leaf);
    assert(!xn.children.contains_key(y));
    assert(seq![y].last() == y);
    assert(path.last() == x);
    assert(leaf.attrs.rule == Some(list_read()));
    assert(decide(xn, Operation::Read, seq![y], c) == Ok::<bool, Fault>(true));
    assert(decide(xn, Operation::Create, seq![y], c) == Ok::<bool, Fault>(false));
    assert(decide(root, Operation::Read, path, c) == Ok::<bool, Fault>(true));
    assert(decide(root, Operation::Create, path, c) == Ok::<bool, Fault>(false));
    assert(segments(seq!['/'] + x + seq!['/'] + y) == path);
}

/// Below `n`, the child `x` has a child keyed by the empty name (written
/// `/x/`) with the rule `r`.
pub open spec fn blanket_at(n: Node, x: Seq<char>, r: Term) -> bool {
    &&& n.children.contains_key(x)
    &&& n.children[x].children.contains_key(Seq::empty())
    &&& n.children[x].children[Seq::empty()].attrs.rule == Some(r)
}

/// A node that has a rule keeps its attributes through any insertion
/// below it that succeeds.
proof fn lemma_insert_keeps_attrs(n: Node, f: Seq<char>, p: Seq<Seq<char>>, a: AttrView)
    requires
        n.attrs.rule is Some,
        insert_node(n, f, p, a) is Ok,
    ensures
        insert_node(n, f, p, a)->Ok_0.attrs == n.attrs,
{
}

/// A child keyed `k` whose rule is set keeps its attributes through any
/// insertion that succeeds.
proof fn lemma_insert_keeps_child(n: Node, f: Seq<char>, p: Seq<Seq<char>>, a: AttrView, k: Seq<char>)
    requires
        n.children.contains_key(k),
        n.children[k].attrs.rule is Some,
        insert_node(n, f, p, a) is Ok,
    ensures
        insert_node(n, f, p, a)->Ok_0.children.contains_key(k),
        insert_node(n, f, p, a)->Ok_0.children[k].attrs == n.children[k].attrs,
{
    if p.len() > 0 && seg_key(p.last()) == k {
        lemma_insert_keeps_attrs(n.children[k], f, p.drop_last(), a);
    }
}

/// Insertions that succeed keep a rule written on `/x/`.
proof fn lemma_insert_keeps_blanket(n: Node, f: Seq<char>, p: Seq<Seq<char>>, a: AttrView, x: Seq<char>, r: Term)
    requires
        blanket_at(n, x, r),
        insert_node(n, f, p, a) is Ok,
    ensures
        blanket_at(insert_node(n, f, p, a)->Ok_0, x, r),
{
    if p.len() > 0 && seg_key(p.last()) == x {
        let xn = n.children[x];
        assert(child_or_fresh(n, x) == xn);
        lemma_insert_keeps_child(xn, f, p.drop_last(), a, Seq::empty());
    }
}

/// Inserting `/x/` with attributes `a` writes the rule of `a` on `/x/`.
proof fn lemma_insert_writes_blanket(n: Node, x: Seq<char>, a: AttrView, r: Term)
    requires
        x.len() > 0,
        x[0] != ':',
        no_slash(x),
        a.rule == Some(r),
        insert_node(n, seq!['/'] + x + seq!['/'], segments(seq!['/'] + x + seq!['/']), a) is Ok,
    ensures
        blanket_at(
            insert_node(n, seq!['/'] + x + seq!['/'], segments(seq!['/'] + x + seq!['/']), a)->Ok_0,
            x,
            r,
        ),
{
    let p0 = seq!['/'] + x + seq!['/'];
    let empty = Seq::<char>::empty();
    assert(p0 =~= seq!['/'] + x + seq!['/'] + empty);
    lemma_segments_two(x, empty);
    let path = seq![empty, x];
    assert(path.last() == x);
    assert(path.drop_last() =~= seq![empty]);
    assert(seq![empty].last() == empty);
    assert(seq![empty].drop_last() =~= Seq::<Seq<char>>::empty());
    assert(!is_parametric(x));
    assert(!is_parametric(empty));
    assert(seg_key(x) == x);
    assert(seg_key(empty) == empty);
    assert(segments(p0) == path);
    let c0 = child_or_fresh(n, x);
    let g0 = child_or_fresh(c0, empty);
    assert(insert_node(n, p0, path, a) is Ok);
    assert(insert_node(c0, p0, seq![empty], a) is Ok);
    assert(insert_node(g0, p0, Seq::empty(), a) is Ok);
    let g1 = insert_node(g0, p0, Seq::empty(), a)->Ok_0;
    assert(g1.attrs == a);
    let c1 = insert_node(c0, p0, seq![empty], a)->Ok_0;
    assert(c1.children == c0.children.insert(empty, g1));
    let m = insert_node(n, p0, path, a)->Ok_0;
    assert(m.children == n.children.insert(x, c1));
}

/// Entries from the `i`-th on keep the rule that the `i`-th writes on `/x/`.
proof fn lemma_build_keeps_blanket(e: Seq<(Seq<char>, AttrView)>, i: int, j: int, x: Seq<char>, r: Term)
    requires
        0 <= i < j <= e.len(),
        x.len() > 0,
        x[0] != ':',
        no_slash(x),
        e[i].0 == seq!['/'] + x + seq!['/'],
        e[i].1.rule == Some(r),
        build(e.take(j)) is Ok,
    ensures
        blanket_at(build(e.take(j))->Ok_0, x, r),
    decreases j - i,
{
    let t = e.take(j);
    assert(t.drop_last() =~= e.take(j - 1));
    assert(t.last() == e[j - 1]);
    if build(e.take(j - 1)) is Err {
        assert(build(t) is Err);
    }
    if j == i + 1 {
        lemma_insert_writes_blanket(build(e.take(i))->Ok_0, x, e[i].1, r);
    } else {
        lemma_build_keeps_blanket(e, i, j - 1, x, r);
        let p = e[j - 1].0;
        lemma_insert_keeps_blanket(build(e.take(j - 1))->Ok_0, p, segments(p), e[j - 1].1, x, r);
    }
}

/// A rule on `/x/` is inherited below `/x` whatever else the configuration
/// holds: reading any `/x/y` is allowed where the root has no parametric
/// child and the rules met on the way before the inherited one evaluate
/// without failure.
pub proof fn lemma_inherited_rule_among(e: Seq<(Seq<char>, AttrView)>, i: int, x: Seq<char>, y: Seq<char>, c: Seq<(Seq<char>, Term)>)
    requires
        0 <= i < e.len(),
        x.len() > 0,
        x[0] != ':',
        no_slash(x),
        y.len() > 0,
        no_slash(y),
        e[i].0 == seq!['/'] + x + seq!['/'],
        e[i].1.rule == Some(list_read()),
        build(e) matches Ok(root) && root.param is None && (root.children.contains_key(Seq::empty())
            ==> rule_allows(root.children[Seq::empty()].attrs.rule, Operation::Read, c) is Ok) && (
        root.children.contains_key(x) ==> rule_allows(root.children[x].attrs.rule, Operation::Read, c)
            is Ok),
    ensures
        decide(build(e)->Ok_0, Operation::Read, segments(seq!['/'] + x + seq!['/'] + y), c) == Ok::<
            bool,
            Fault,
        >(true),
{
    let root = build(e)->Ok_0;
    assert(e.take(e.len() as int) =~= e);
    lemma_build_keeps_blanket(e, i, e.len() as int, x, list_read());
    lemma_build_root(e);
    lemma_segments_two(x, y);
    lemma_list_read(Operation::Read, c);
    let path = seq![y, x];
    assert(path.last() == x);
    assert(path.drop_last() =~= seq![y]);
    let xn = root.children[x];
    assert(xn.children[Seq::empty()].attrs.rule == Some(list_read()));
    assert(decide(xn, Operation::Read, seq![y], c) == Ok::<bool, Fault>(true));
}

} // verus!
