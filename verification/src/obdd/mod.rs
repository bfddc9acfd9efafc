//! Ordered binary decision diagrams.
//!
//! A [Manager] hands out [variables](Var) and combines them into [BDD]s with the Boolean
//! operators. The manager keeps every diagram reduced and ordered with respect to its current
//! variable order, so that two diagrams denote the same Boolean function exactly when they are
//! the same diagram. The order can be changed at any time with [Manager::swap] and
//! [Manager::swap_adjacent], and every existing diagram keeps its function.

pub mod graph;
mod inner;
pub mod model;
pub mod order;
pub mod swap;
pub mod table;
pub mod vars;

use graph::{assign, eval, is_terminal, lemma_canonical, lemma_eval_node, live, node_ok, reaches, top_level};
pub use inner::SlotID;
use inner::{lemma_grows_keeps, lemma_injective, lemma_made, restrict_ok, Inner};
use order::{shifted, Level, VarID};
use swap::swapped_levels;
use std::cmp::Ordering;
use std::collections::hash_map::RandomState;
use std::hash::BuildHasher;
use vstd::prelude::*;

verus! {

/// A variable of a [Manager], named by its creation index, and carrying the tag of its
/// manager.
#[derive(Clone, Copy, PartialEq, Eq, Structural, Hash, Debug)]
pub struct Var {
    var: VarID,
    manager: u64,
}

impl Var {
    /// The creation index of the variable.
    pub closed spec fn id(self) -> u32 {
        self.var.0
    }

    /// The tag of the manager the variable belongs to.
    pub closed spec fn tag(self) -> u64 {
        self.manager
    }

    /// The creation index of the variable.
    pub fn index(&self) -> (r: u32)
        ensures
            r == self.id(),
    {
        self.var.0
    }
}

/// A literal: a variable or its negation.
#[derive(Clone, Copy, PartialEq, Eq, Structural, Hash, Debug)]
pub enum Lit {
    /// An asserted variable.
    Positive(Var),
    /// A negated variable.
    Negative(Var),
}

impl Lit {
    /// The variable of the literal.
    pub open spec fn spec_var(&self) -> Var {
        match *self {
            Lit::Positive(v) => v,
            Lit::Negative(v) => v,
        }
    }

    /// Whether the literal asserts its variable.
    pub open spec fn spec_value(&self) -> bool {
        *self is Positive
    }

    /// The variable of the literal.
    #[verifier::when_used_as_spec(spec_var)]
    pub fn var(&self) -> (r: Var)
        ensures
            r == self.spec_var(),
    {
        match self {
            Lit::Positive(var) => *var,
            Lit::Negative(var) => *var,
        }
    }

    /// Whether the literal asserts its variable.
    #[verifier::when_used_as_spec(spec_value)]
    pub fn value(&self) -> (r: bool)
        ensures
            r == self.spec_value(),
    {
        match self {
            Lit::Positive(_) => true,
            Lit::Negative(_) => false,
        }
    }

    /// The opposite literal.
    pub fn not(self) -> (r: Lit)
        ensures
            r == match self {
                Lit::Positive(v) => Lit::Negative(v),
                Lit::Negative(v) => Lit::Positive(v),
            },
    {
        match self {
            Lit::Positive(var) => Lit::Negative(var),
            Lit::Negative(var) => Lit::Positive(var),
        }
    }
}

/// A handle to a diagram of a [Manager], carrying the tag of its manager.
#[derive(Clone, Copy, PartialEq, Eq, Structural, Hash, Debug)]
pub struct BDD {
    id: SlotID,
    manager: u64,
}

impl BDD {
    /// The identifier of the diagram's root.
    pub closed spec fn id(self) -> u32 {
        self.id.0
    }

    /// The tag of the manager the diagram belongs to.
    pub closed spec fn tag(self) -> u64 {
        self.manager
    }
}

/// The node identifiers of a manager ran out.
#[derive(Clone, Copy, PartialEq, Eq, Structural, Hash, Debug)]
pub struct NodeLimit;

/// The manager of a family of diagrams sharing one variable order.
///
/// Each manager draws a random tag when it is made, and the variables and diagrams it hands out
/// carry it: operations take only variables and diagrams with the manager's own tag. Two
/// managers draw the same tag with probability `2^-64`.
pub struct Manager {
    inner: Inner,
    tag: u64,
}

impl Manager {
    /// The tag of the manager, which its variables and diagrams carry.
    pub closed spec fn tag(&self) -> u64 {
        self.tag
    }

    /// The level of `v` in the order.
    pub open spec fn level_of(&self, v: Var) -> u32 {
        self.levels()[v.id() as int]
    }

    /// The store behind the manager is consistent.
    pub closed spec fn wf(&self) -> bool {
        self.inner.wf()
    }

    /// The level of each variable, indexed by the variable's creation index.
    pub closed spec fn levels(&self) -> Seq<u32> {
        self.inner.levels()
    }

    /// `b` names a diagram of this manager.
    pub closed spec fn valid(&self, b: BDD) -> bool {
        b.manager == self.tag && self.inner.live(b.id.0)
    }

    /// The truth value of the function of `b` when each variable `v` has the value `a(v)`.
    pub closed spec fn denotes(&self, b: BDD, a: spec_fn(u32) -> bool) -> bool {
        eval(self.inner.graph(), self.inner.levels(), b.id.0, a)
    }

    /// The level of the variable tested at the root of `b`; the number of variables for the
    /// two constants.
    pub closed spec fn root_level(&self, b: BDD) -> nat {
        self.inner.top(b.id.0)
    }

    /// No node identifier is left for new nodes.
    pub closed spec fn exhausted(&self) -> bool {
        self.inner.next_node == u32::MAX
    }

    /// `self` holds every node of `old` unchanged, under the same order: it only gained nodes,
    /// and every node identifier handed out since `old` names one of them.
    pub closed spec fn extends(&self, old: Manager) -> bool {
        self.tag == old.tag && self.inner.grows(old.inner)
    }

    /// Every node identifier handed out since `old` names a node of `self`: identifiers are
    /// used up only by nodes actually stored.
    pub closed spec fn counted(&self, old: Manager) -> bool {
        &&& self.inner.next_node >= old.inner.next_node
        &&& self.inner.counted(old.inner)
        &&& old.inner.graph().dom().subset_of(self.inner.graph().dom())
    }

    /// `self` is the same manager as `old`, and every diagram of `old` is still a diagram of
    /// `self`, with the same function.
    pub open spec fn keeps(&self, old: Manager) -> bool {
        &&& self.tag() == old.tag()
        &&& forall|b: BDD| #[trigger]
            old.valid(b) ==> self.valid(b) && forall|a: spec_fn(u32) -> bool| #[trigger]
                self.denotes(b, a) == old.denotes(b, a)
    }
}

/// `RandomState::new`: a builder of hashers whose keys the process draws at random. Nothing is
/// claimed of the keys.
#[verifier::external_body]
fn random_state() -> (r: RandomState) {
    RandomState::new()
}

/// `BuildHasher::hash_one` of `0u8` with the hashers of `state`. It depends on the random keys
/// of `state`, so nothing is claimed of it.
#[verifier::external_body]
fn hash_of_zero(state: &RandomState) -> (r: u64) {
    state.hash_one(0u8)
}

/// The store keeping every function makes the manager keep every diagram.
proof fn lemma_keeps(old: &Manager, new: &Manager)
    requires
        new.inner.keeps(old.inner),
        new.tag == old.tag,
    ensures
        new.keeps(*old),
{
    assert forall|b: BDD| #[trigger] old.valid(b) implies new.valid(b) && forall|a: spec_fn(u32) -> bool| #[trigger]
        new.denotes(b, a) == old.denotes(b, a) by {
        assert(old.inner.live(b.id.0));
    }
}

impl Manager {
    /// A manager with no variable.
    pub fn new() -> (r: Manager)
        ensures
            r.wf(),
            r.levels() == Seq::<u32>::empty(),
            !r.exhausted(),
            forall|b: BDD| #[trigger] r.valid(b) <==> is_terminal(b.id()) && b.tag() == r.tag(),
    {
        let seed = random_state();
        Manager { inner: Inner::new(), tag: hash_of_zero(&seed) }
    }

    /// The diagram of the constant `true` function.
    pub fn top(&self) -> (r: BDD)
        requires
            self.wf(),
        ensures
            self.valid(r),
            self.root_level(r) == self.levels().len(),
            forall|a: spec_fn(u32) -> bool| #[trigger] self.denotes(r, a),
            self.paths(r) == seq![Seq::<(u32, bool)>::empty()],
    {
        BDD { id: SlotID::top(), manager: self.tag }
    }

    /// The diagram of the constant `false` function.
    pub fn bottom(&self) -> (r: BDD)
        requires
            self.wf(),
        ensures
            self.valid(r),
            self.root_level(r) == self.levels().len(),
            forall|a: spec_fn(u32) -> bool| !#[trigger] self.denotes(r, a),
            self.paths(r) == Seq::<Seq<(u32, bool)>>::empty(),
    {
        BDD { id: SlotID::bottom(), manager: self.tag }
    }

    /// A new variable at the bottom of the order.
    pub fn add_var(&mut self) -> (r: Var)
        requires
            old(self).wf(),
            old(self).levels().len() < u32::MAX,
        ensures
            r.tag() == final(self).tag(),
            final(self).wf(),
            final(self).keeps(*old(self)),
            final(self).exhausted() == old(self).exhausted(),
            r.id() == old(self).levels().len(),
            final(self).levels() == old(self).levels().push(r.id()),
    {
        let v = self.inner.add_var();
        proof {
            lemma_keeps(old(self), self);
        }
        Var { var: VarID(v), manager: self.tag }
    }

    /// A new variable placed right after `preceding` in the order.
    pub fn add_var_after(&mut self, preceding: Var) -> (r: Var)
        requires
            preceding.tag() == old(self).tag(),
            old(self).wf(),
            old(self).levels().len() < u32::MAX,
            preceding.id() < old(self).levels().len(),
        ensures
            r.tag() == final(self).tag(),
            final(self).wf(),
            final(self).keeps(*old(self)),
            final(self).exhausted() == old(self).exhausted(),
            r.id() == old(self).levels().len(),
            final(self).levels() == shifted(
                old(self).levels(),
                old(self).levels()[preceding.id() as int],
                1,
            ).push((old(self).levels()[preceding.id() as int] + 1) as u32),
    {
        let v = self.inner.add_var_after(preceding.var.0);
        proof {
            lemma_keeps(old(self), self);
        }
        Var { var: VarID(v), manager: self.tag }
    }

    /// `n` new variables at the bottom of the order, in this order.
    pub fn add_vars(&mut self, n: u32) -> (r: Vec<Var>)
        requires
            old(self).wf(),
            old(self).levels().len() + n <= u32::MAX,
        ensures
            forall|i: int| 0 <= i < r@.len() ==> (#[trigger] r@[i]).tag() == final(self).tag(),
            final(self).wf(),
            final(self).keeps(*old(self)),
            final(self).exhausted() == old(self).exhausted(),
            r@.len() == n,
            forall|i: int| 0 <= i < n ==> (#[trigger] r@[i]).id() == old(self).levels().len() + i,
            final(self).levels() == old(self).levels() + Seq::new(
                n as nat,
                |i: int| (old(self).levels().len() + i) as u32,
            ),
    {
        let ids = self.inner.add_vars(n);
        proof {
            lemma_keeps(old(self), self);
        }
        vars_of(&ids, self.tag)
    }

    /// `n` new variables placed right after `preceding` in the order, in this order.
    pub fn add_vars_after(&mut self, preceding: Var, n: u32) -> (r: Vec<Var>)
        requires
            preceding.tag() == old(self).tag(),
            old(self).wf(),
            old(self).levels().len() < u32::MAX - n,
            preceding.id() < old(self).levels().len(),
        ensures
            forall|i: int| 0 <= i < r@.len() ==> (#[trigger] r@[i]).tag() == final(self).tag(),
            final(self).wf(),
            final(self).keeps(*old(self)),
            final(self).exhausted() == old(self).exhausted(),
            r@.len() == n,
            forall|i: int| 0 <= i < n ==> (#[trigger] r@[i]).id() == old(self).levels().len() + i,
            final(self).levels() == shifted(
                old(self).levels(),
                old(self).levels()[preceding.id() as int],
                n,
            ) + Seq::new(
                n as nat,
                |i: int| (old(self).levels()[preceding.id() as int] + 1 + i) as u32,
            ),
    {
        let ids = self.inner.add_vars_after(preceding.var.0, n);
        proof {
            lemma_keeps(old(self), self);
        }
        vars_of(&ids, self.tag)
    }

    /// The number of variables.
    pub fn n_vars(&self) -> (r: u32)
        requires
            self.wf(),
        ensures
            r == self.levels().len(),
    {
        self.inner.n_vars()
    }

    /// All the variables, by creation index.
    pub fn vars(&self) -> (r: Vec<Var>)
        requires
            self.wf(),
        ensures
            forall|i: int| 0 <= i < r@.len() ==> (#[trigger] r@[i]).tag() == self.tag(),
            r@.len() == self.levels().len(),
            forall|i: int| 0 <= i < r@.len() ==> (#[trigger] r@[i]).id() == i,
    {
        let n = self.inner.n_vars();
        let mut r: Vec<Var> = Vec::new();
        let mut i: u32 = 0;
        while i < n
            invariant
                i <= n,
                r@.len() == i,
                forall|j: int| 0 <= j < i ==> (#[trigger] r@[j]).id() == j && r@[j].tag() == self.tag(),
            decreases n - i,
        {
            r.push(Var { var: VarID(i), manager: self.tag });
            i = i + 1;
        }
        r
    }

    /// The variable at `level`, if the level is occupied.
    pub fn var_at(&self, level: Level) -> (r: Option<Var>)
        requires
            self.wf(),
        ensures
            r matches Some(v) ==> v.tag() == self.tag(),
            r is None <==> level.0 >= self.levels().len(),
            r matches Some(v) ==> v.id() < self.levels().len() && self.levels()[v.id() as int]
                == level.0,
    {
        match self.inner.var_at(level) {
            Some(v) => Some(Var { var: v, manager: self.tag }),
            None => None,
        }
    }
}

impl Default for Manager {
    /// A manager with no variable.
    fn default() -> (r: Manager)
        ensures
            r.wf(),
            r.levels() == Seq::<u32>::empty(),
            !r.exhausted(),
    {
        Manager::new()
    }
}

/// The variables with the given creation indices, of the manager tagged `tag`.
fn vars_of(ids: &Vec<VarID>, tag: u64) -> (r: Vec<Var>)
    ensures
        r@.len() == ids@.len(),
        forall|i: int| 0 <= i < ids@.len() ==> (#[trigger] r@[i]).id() == ids@[i].0 && r@[i].tag() == tag,
{
    let mut r: Vec<Var> = Vec::new();
    let mut i: usize = 0;
    while i < ids.len()
        invariant
            i <= ids@.len(),
            r@.len() == i,
            forall|j: int| 0 <= j < i ==> (#[trigger] r@[j]).id() == ids@[j].0 && r@[j].tag() == tag,
        decreases ids@.len() - i,
    {
        r.push(Var { var: ids[i], manager: tag });
        i = i + 1;
    }
    r
}

impl Var {
    /// The level of the variable in the order of `manager`.
    pub fn level(&self, manager: &Manager) -> (r: Level)
        requires
            self.tag() == manager.tag(),
            manager.wf(),
            self.id() < manager.levels().len(),
        ensures
            r.0 == manager.levels()[self.id() as int],
            r.0 < manager.levels().len(),
    {
        Level(manager.inner.level(self.var.0))
    }

    /// How this variable compares with `other` in the order of `manager`: the one at the lower
    /// level comes first, and only a variable compares equal to itself.
    pub fn compare(&self, other: Var, manager: &Manager) -> (r: Ordering)
        requires
            manager.wf(),
            self.id() < manager.levels().len(),
            other.id() < manager.levels().len(),
            self.tag() == manager.tag(),
            other.tag() == manager.tag(),
        ensures
            (r is Less) == (manager.level_of(*self) < manager.level_of(other)),
            (r is Equal) == (*self == other),
            (r is Greater) == (manager.level_of(*self) > manager.level_of(other)),
    {
        let a = manager.inner.level(self.var.0);
        let b = manager.inner.level(other.var.0);
        proof {
            if a == b {
                lemma_level_identifies(*manager, *self, other);
            }
        }
        if a < b {
            Ordering::Less
        } else if a == b {
            Ordering::Equal
        } else {
            Ordering::Greater
        }
    }

    /// The variable right after this one in the order of `manager`, if any.
    pub fn next(&self, manager: &Manager) -> (r: Option<Var>)
        requires
            self.tag() == manager.tag(),
            manager.wf(),
            self.id() < manager.levels().len(),
        ensures
            r matches Some(v) ==> v.tag() == manager.tag(),
            r is None <==> manager.levels()[self.id() as int] + 1 >= manager.levels().len(),
            r matches Some(v) ==> v.id() < manager.levels().len() && manager.levels()[v.id() as int]
                == manager.levels()[self.id() as int] + 1,
    {
        match manager.inner.order.next_of(self.var) {
            Some(v) => Some(Var { var: v, manager: manager.tag }),
            None => None,
        }
    }
}

/// Keeping every diagram is transitive.
pub proof fn lemma_keeps_trans(a: Manager, b: Manager, c: Manager)
    requires
        b.keeps(a),
        c.keeps(b),
    ensures
        c.keeps(a),
{
    assert forall|x: BDD| #[trigger] a.valid(x) implies c.valid(x) && forall|v: spec_fn(u32) -> bool| #[trigger]
        c.denotes(x, v) == a.denotes(x, v) by {
        assert(b.valid(x));
        assert forall|v: spec_fn(u32) -> bool| #[trigger] c.denotes(x, v) == a.denotes(x, v) by {
            assert(c.denotes(x, v) == b.denotes(x, v));
            assert(b.denotes(x, v) == a.denotes(x, v));
        }
    }
}

/// Gaining nodes is transitive.
pub proof fn lemma_extends_trans(a: Manager, b: Manager, c: Manager)
    requires
        b.extends(a),
        c.extends(b),
    ensures
        c.extends(a),
{
    inner::lemma_grows_trans(&a.inner, &b.inner, &c.inner);
}

/// Identifiers used up only by stored nodes, from `a` to `b` and from `b` to `c`, are so from
/// `a` to `c`.
pub proof fn lemma_counted_trans(a: Manager, b: Manager, c: Manager)
    requires
        b.counted(a),
        c.counted(b),
    ensures
        c.counted(a),
{
    assert forall|id: u32|
        a.inner.next_node <= id < c.inner.next_node implies #[trigger] c.inner.graph().dom().contains(
        id,
    ) by {
        if id < b.inner.next_node {
            assert(b.inner.graph().dom().contains(id));
        }
    }
}

/// What `extends` stands for.
proof fn lemma_extends_is(a: Manager, b: Manager)
    ensures
        b.extends(a) == (b.tag() == a.tag() && b.inner.grows(a.inner)),
{
}

/// The parity of the number of diagrams of `args` that hold under `a`.
pub open spec fn parity(m: Manager, args: Seq<BDD>, a: spec_fn(u32) -> bool) -> bool
    decreases args.len(),
{
    if args.len() == 0 {
        false
    } else {
        parity(m, args.drop_last(), a) != m.denotes(args.last(), a)
    }
}

/// Whether a diagram of `m` holds under `a`.
pub open spec fn holds_in(m: Manager, a: spec_fn(u32) -> bool) -> spec_fn(BDD) -> bool {
    |b: BDD| m.denotes(b, a)
}

/// Exclusive disjunction, read directly: the parity of `args` holds under `a` exactly when an
/// odd number of them hold under `a`.
pub proof fn lemma_parity_counts(m: Manager, args: Seq<BDD>, a: spec_fn(u32) -> bool)
    ensures
        parity(m, args, a) <==> args.filter(holds_in(m, a)).len() % 2 == 1,
    decreases args.len(),
{
    if args.len() == 0 {
        reveal(Seq::filter);
    } else {
        let rest = args.drop_last();
        lemma_parity_counts(m, rest, a);
        assert(args =~= rest.push(args.last()));
        rest.lemma_filter_push(args.last(), holds_in(m, a));
    }
}

impl Manager {
    /// `if guard then then_ else else_`.
    pub fn ite(&mut self, guard: BDD, then_: BDD, else_: BDD) -> (r: Result<BDD, NodeLimit>)
        requires
            old(self).wf(),
            old(self).valid(guard),
            old(self).valid(then_),
            old(self).valid(else_),
        ensures
            final(self).wf(),
            final(self).keeps(*old(self)),
            final(self).extends(*old(self)),
            final(self).levels() == old(self).levels(),
            r matches Ok(b) ==> final(self).valid(b) && forall|a: spec_fn(u32) -> bool| #[trigger]
                final(self).denotes(b, a) == if old(self).denotes(guard, a) {
                    old(self).denotes(then_, a)
                } else {
                    old(self).denotes(else_, a)
                },
            r is Err ==> final(self).exhausted(),
    {
        let r = self.inner.ite(guard.id.0, then_.id.0, else_.id.0);
        proof {
            lemma_grows_keeps(&old(self).inner, &self.inner);
            lemma_keeps(old(self), self);
        }
        match r {
            Some(id) => {
                proof {
                    assert forall|a: spec_fn(u32) -> bool| #[trigger]
                        self.denotes(BDD { id: SlotID(id), manager: self.tag }, a) == if old(self).denotes(guard, a) {
                            old(self).denotes(then_, a)
                        } else {
                            old(self).denotes(else_, a)
                        } by {
                        assert(self.denotes(guard, a) == old(self).denotes(guard, a));
                        assert(self.denotes(then_, a) == old(self).denotes(then_, a));
                        assert(self.denotes(else_, a) == old(self).denotes(else_, a));
                    }
                }
                Ok(BDD { id: SlotID(id), manager: self.tag })
            },
            None => Err(NodeLimit),
        }
    }

    /// The negation of `arg`.
    pub fn not(&mut self, arg: BDD) -> (r: Result<BDD, NodeLimit>)
        requires
            old(self).wf(),
            old(self).valid(arg),
        ensures
            final(self).wf(),
            final(self).keeps(*old(self)),
            final(self).extends(*old(self)),
            final(self).levels() == old(self).levels(),
            r matches Ok(b) ==> final(self).valid(b) && forall|a: spec_fn(u32) -> bool| #[trigger]
                final(self).denotes(b, a) == !old(self).denotes(arg, a),
            r is Err ==> final(self).exhausted(),
    {
        let bottom = self.bottom();
        let top = self.top();
        self.ite(arg, bottom, top)
    }

    /// The implication from `left` to `right`.
    pub fn implies(&mut self, left: BDD, right: BDD) -> (r: Result<BDD, NodeLimit>)
        requires
            old(self).wf(),
            old(self).valid(left),
            old(self).valid(right),
        ensures
            final(self).wf(),
            final(self).keeps(*old(self)),
            final(self).extends(*old(self)),
            final(self).levels() == old(self).levels(),
            r matches Ok(b) ==> final(self).valid(b) && forall|a: spec_fn(u32) -> bool| #[trigger]
                final(self).denotes(b, a) == (old(self).denotes(left, a) ==> old(self).denotes(right, a)),
            r is Err ==> final(self).exhausted(),
    {
        let top = self.top();
        self.ite(left, right, top)
    }

    /// The conjunction of `args`; `true` when there is none.
    pub fn and(&mut self, args: &Vec<BDD>) -> (r: Result<BDD, NodeLimit>)
        requires
            old(self).wf(),
            forall|i: int| 0 <= i < args@.len() ==> old(self).valid(#[trigger] args@[i]),
        ensures
            final(self).wf(),
            final(self).keeps(*old(self)),
            final(self).extends(*old(self)),
            final(self).levels() == old(self).levels(),
            r matches Ok(b) ==> final(self).valid(b) && forall|a: spec_fn(u32) -> bool| #[trigger]
                final(self).denotes(b, a) == forall|i: int|
                    0 <= i < args@.len() ==> #[trigger] old(self).denotes(args@[i], a),
            r is Err ==> final(self).exhausted(),
    {
        let mut acc = self.top();
        let mut i: usize = 0;
        while i < args.len()
            invariant
                self.wf(),
                self.keeps(*old(self)),
                self.extends(*old(self)),
                self.levels() == old(self).levels(),
                i <= args@.len(),
                forall|j: int| 0 <= j < args@.len() ==> old(self).valid(#[trigger] args@[j]),
                self.valid(acc),
                forall|a: spec_fn(u32) -> bool| #[trigger]
                    self.denotes(acc, a) == forall|j: int|
                        0 <= j < i ==> #[trigger] old(self).denotes(args@[j], a),
            decreases args@.len() - i,
        {
            let ghost prev = *self;
            let arg = args[i];
            proof {
                assert(old(self).valid(args@[i as int]));
            }
            let bottom = self.bottom();
            acc = match self.ite(acc, arg, bottom) {
                Ok(b) => b,
                Err(e) => {
                    proof {
                        lemma_keeps_trans(*old(self), prev, *self);
                        lemma_extends_trans(*old(self), prev, *self);
                    }
                    return Err(e);
                },
            };
            proof {
                lemma_keeps_trans(*old(self), prev, *self);
                lemma_extends_trans(*old(self), prev, *self);
                assert forall|a: spec_fn(u32) -> bool| #[trigger]
                    self.denotes(acc, a) == forall|j: int|
                        0 <= j < i + 1 ==> #[trigger] old(self).denotes(args@[j], a) by {
                    assert(prev.denotes(arg, a) == old(self).denotes(args@[i as int], a));
                }
            }
            i = i + 1;
        }
        Ok(acc)
    }

    /// The disjunction of `args`; `false` when there is none.
    pub fn or(&mut self, args: &Vec<BDD>) -> (r: Result<BDD, NodeLimit>)
        requires
            old(self).wf(),
            forall|i: int| 0 <= i < args@.len() ==> old(self).valid(#[trigger] args@[i]),
        ensures
            final(self).wf(),
            final(self).keeps(*old(self)),
            final(self).extends(*old(self)),
            final(self).levels() == old(self).levels(),
            r matches Ok(b) ==> final(self).valid(b) && forall|a: spec_fn(u32) -> bool| #[trigger]
                final(self).denotes(b, a) == exists|i: int|
                    0 <= i < args@.len() && #[trigger] old(self).denotes(args@[i], a),
            r is Err ==> final(self).exhausted(),
    {
        let mut acc = self.bottom();
        let mut i: usize = 0;
        while i < args.len()
            invariant
                self.wf(),
                self.keeps(*old(self)),
                self.extends(*old(self)),
                self.levels() == old(self).levels(),
                i <= args@.len(),
                forall|j: int| 0 <= j < args@.len() ==> old(self).valid(#[trigger] args@[j]),
                self.valid(acc),
                forall|a: spec_fn(u32) -> bool| #[trigger]
                    self.denotes(acc, a) == exists|j: int|
                        0 <= j < i && #[trigger] old(self).denotes(args@[j], a),
            decreases args@.len() - i,
        {
            let ghost prev = *self;
            let arg = args[i];
            proof {
                assert(old(self).valid(args@[i as int]));
            }
            let top = self.top();
            let ghost pacc = acc;
            acc = match self.ite(acc, top, arg) {
                Ok(b) => b,
                Err(e) => {
                    proof {
                        lemma_keeps_trans(*old(self), prev, *self);
                        lemma_extends_trans(*old(self), prev, *self);
                    }
                    return Err(e);
                },
            };
            proof {
                lemma_keeps_trans(*old(self), prev, *self);
                lemma_extends_trans(*old(self), prev, *self);
                assert forall|a: spec_fn(u32) -> bool| #[trigger]
                    self.denotes(acc, a) == exists|j: int|
                        0 <= j < i + 1 && #[trigger] old(self).denotes(args@[j], a) by {
                    assert(prev.denotes(arg, a) == old(self).denotes(args@[i as int], a));
                    if prev.denotes(pacc, a) {
                        let j = choose|j: int| 0 <= j < i && #[trigger] old(self).denotes(args@[j], a);
                        assert(0 <= j < i + 1 && old(self).denotes(args@[j], a));
                    }
                }
            }
            i = i + 1;
        }
        Ok(acc)
    }

    /// The exclusive disjunction of `args`: whether an odd number of them hold; `false` when
    /// there is none.
    pub fn xor(&mut self, args: &Vec<BDD>) -> (r: Result<BDD, NodeLimit>)
        requires
            old(self).wf(),
            forall|i: int| 0 <= i < args@.len() ==> old(self).valid(#[trigger] args@[i]),
        ensures
            final(self).wf(),
            final(self).keeps(*old(self)),
            final(self).extends(*old(self)),
            final(self).levels() == old(self).levels(),
            r matches Ok(b) ==> final(self).valid(b) && forall|a: spec_fn(u32) -> bool| #[trigger]
                final(self).denotes(b, a) == parity(*old(self), args@, a),
            r matches Ok(b) ==> forall|a: spec_fn(u32) -> bool| #[trigger]
                final(self).denotes(b, a) == (args@.filter(holds_in(*old(self), a)).len() % 2 == 1),
            r is Err ==> final(self).exhausted(),
    {
        proof {
            assert forall|a: spec_fn(u32) -> bool| #[trigger] parity(*old(self), args@, a) == (args@.filter(
                holds_in(*old(self), a),
            ).len() % 2 == 1) by {
                lemma_parity_counts(*old(self), args@, a);
            }
        }
        let mut acc = self.bottom();
        let mut i: usize = 0;
        proof {
            assert forall|a: spec_fn(u32) -> bool| #[trigger]
                self.denotes(acc, a) == parity(*old(self), args@.subrange(0, 0), a) by {}
        }
        while i < args.len()
            invariant
                self.wf(),
                self.keeps(*old(self)),
                self.extends(*old(self)),
                self.levels() == old(self).levels(),
                i <= args@.len(),
                forall|j: int| 0 <= j < args@.len() ==> old(self).valid(#[trigger] args@[j]),
                self.valid(acc),
                forall|a: spec_fn(u32) -> bool| #[trigger]
                    self.denotes(acc, a) == parity(*old(self), args@.subrange(0, i as int), a),
            decreases args@.len() - i,
        {
            let ghost prev = *self;
            let arg = args[i];
            proof {
                assert(old(self).valid(args@[i as int]));
            }
            let negated = match self.not(arg) {
                Ok(b) => b,
                Err(e) => {
                    proof {
                        lemma_keeps_trans(*old(self), prev, *self);
                        lemma_extends_trans(*old(self), prev, *self);
                    }
                    return Err(e);
                },
            };
            let ghost mid = *self;
            proof {
                lemma_keeps_trans(*old(self), prev, mid);
                lemma_extends_trans(*old(self), prev, mid);
            }
            acc = match self.ite(acc, negated, arg) {
                Ok(b) => b,
                Err(e) => {
                    proof {
                        lemma_keeps_trans(*old(self), mid, *self);
                        lemma_extends_trans(*old(self), mid, *self);
                    }
                    return Err(e);
                },
            };
            proof {
                lemma_keeps_trans(*old(self), mid, *self);
                lemma_extends_trans(*old(self), mid, *self);
                let next = args@.subrange(0, i + 1);
                assert(next.drop_last() =~= args@.subrange(0, i as int));
                assert forall|a: spec_fn(u32) -> bool| #[trigger]
                    self.denotes(acc, a) == parity(*old(self), next, a) by {
                    assert(prev.denotes(arg, a) == old(self).denotes(args@[i as int], a));
                    assert(mid.denotes(arg, a) == prev.denotes(arg, a));
                    assert(next.last() == args@[i as int]);
                }
            }
            i = i + 1;
        }
        proof {
            assert(args@.subrange(0, args@.len() as int) =~= args@);
        }
        Ok(acc)
    }
}

impl Manager {
    /// The diagram of a literal: true exactly when its variable has the literal's value.
    pub fn lit(&mut self, lit: Lit) -> (r: Result<BDD, NodeLimit>)
        requires
            lit.var().tag() == old(self).tag(),
            old(self).wf(),
            lit.var().id() < old(self).levels().len(),
        ensures
            final(self).wf(),
            final(self).keeps(*old(self)),
            final(self).extends(*old(self)),
            final(self).levels() == old(self).levels(),
            r matches Ok(b) ==> final(self).valid(b) && forall|a: spec_fn(u32) -> bool| #[trigger]
                final(self).denotes(b, a) == (a(lit.var().id()) == lit.value()),
            r matches Ok(b) ==> final(self).paths(b) == seq![seq![(lit.var().id(), lit.value())]],
            r is Err ==> final(self).exhausted(),
            !old(self).exhausted() ==> r is Ok,
    {
        let v = lit.var().var.0;
        proof {
            self.inner.order.lemma_wf();
        }
        let r = if lit.value() {
            self.inner.make(v, 1, 0)
        } else {
            self.inner.make(v, 0, 1)
        };
        proof {
            lemma_grows_keeps(&old(self).inner, &self.inner);
            lemma_keeps(old(self), self);
        }
        match r {
            Some(id) => {
                proof {
                    let g = self.inner.graph();
                    let lv = self.inner.levels();
                    if lit.value() {
                        lemma_made(g, lv, v, 1, 0, id);
                    } else {
                        lemma_made(g, lv, v, 0, 1, id);
                    }
                    assert(node_ok(g, lv, id));
                    let one = model::paths(g, lv, 1);
                    let zero = model::paths(g, lv, 0);
                    assert(one == seq![Seq::<(u32, bool)>::empty()]);
                    assert(zero == Seq::<Seq<(u32, bool)>>::empty());
                    let ps = model::paths(g, lv, id);
                    let lit_path = seq![(v, lit.value())];
                    if lit.value() {
                        assert(ps == zero.map_values(|p: Seq<(u32, bool)>| seq![(v, false)] + p)
                            + one.map_values(|p: Seq<(u32, bool)>| seq![(v, true)] + p));
                        assert(one.map_values(|p: Seq<(u32, bool)>| seq![(v, true)] + p)[0] =~= lit_path);
                    } else {
                        assert(ps == one.map_values(|p: Seq<(u32, bool)>| seq![(v, false)] + p)
                            + zero.map_values(|p: Seq<(u32, bool)>| seq![(v, true)] + p));
                        assert(one.map_values(|p: Seq<(u32, bool)>| seq![(v, false)] + p)[0] =~= lit_path);
                    }
                    assert(ps =~= seq![lit_path]);
                }
                Ok(BDD { id: SlotID(id), manager: self.tag })
            },
            None => Err(NodeLimit),
        }
    }

    /// `body` with the variable of `lit` fixed to the literal's value.
    pub fn restrict(&mut self, lit: Lit, body: BDD) -> (r: Result<BDD, NodeLimit>)
        requires
            lit.var().tag() == old(self).tag(),
            old(self).wf(),
            lit.var().id() < old(self).levels().len(),
            old(self).valid(body),
        ensures
            final(self).wf(),
            final(self).keeps(*old(self)),
            final(self).extends(*old(self)),
            final(self).levels() == old(self).levels(),
            r matches Ok(b) ==> final(self).valid(b) && forall|a: spec_fn(u32) -> bool| #[trigger]
                final(self).denotes(b, a) == old(self).denotes(
                    body,
                    assign(a, lit.var().id(), lit.value()),
                ),
            r is Err ==> final(self).exhausted(),
    {
        let v = lit.var().var.0;
        let r = self.inner.restrict(v, lit.value(), body.id.0);
        proof {
            lemma_grows_keeps(&old(self).inner, &self.inner);
            lemma_keeps(old(self), self);
        }
        match r {
            Some(id) => {
                proof {
                    assert forall|a: spec_fn(u32) -> bool| #[trigger]
                        self.denotes(BDD { id: SlotID(id), manager: self.tag }, a) == old(self).denotes(
                            body,
                            assign(a, v, lit.value()),
                        ) by {
                        assert(self.denotes(body, assign(a, v, lit.value())) == old(self).denotes(
                            body,
                            assign(a, v, lit.value()),
                        ));
                    }
                }
                Ok(BDD { id: SlotID(id), manager: self.tag })
            },
            None => Err(NodeLimit),
        }
    }

    /// The existential quantification of `var` in `body`.
    pub fn exists_var(&mut self, var: Var, body: BDD) -> (r: Result<BDD, NodeLimit>)
        requires
            var.tag() == old(self).tag(),
            old(self).wf(),
            var.id() < old(self).levels().len(),
            old(self).valid(body),
        ensures
            final(self).wf(),
            final(self).keeps(*old(self)),
            final(self).extends(*old(self)),
            final(self).levels() == old(self).levels(),
            r matches Ok(b) ==> final(self).valid(b) && forall|a: spec_fn(u32) -> bool| #[trigger]
                final(self).denotes(b, a) == (old(self).denotes(body, assign(a, var.id(), true))
                    || old(self).denotes(body, assign(a, var.id(), false))),
            r is Err ==> final(self).exhausted(),
    {
        let ghost s0 = *self;
        let high = match self.restrict(Lit::Positive(var), body) {
            Ok(b) => b,
            Err(e) => return Err(e),
        };
        let ghost s1 = *self;
        let low = match self.restrict(Lit::Negative(var), body) {
            Ok(b) => b,
            Err(e) => {
                proof {
                    lemma_keeps_trans(s0, s1, *self);
                    lemma_extends_trans(s0, s1, *self);
                }
                return Err(e);
            },
        };
        let ghost s2 = *self;
        proof {
            lemma_keeps_trans(s0, s1, s2);
            lemma_extends_trans(s0, s1, s2);
        }
        let top = self.top();
        let r = self.ite(high, top, low);
        proof {
            lemma_keeps_trans(s0, s2, *self);
            lemma_extends_trans(s0, s2, *self);
            if r is Ok {
                assert forall|a: spec_fn(u32) -> bool| #[trigger]
                    self.denotes(r->Ok_0, a) == (s0.denotes(body, assign(a, var.id(), true))
                        || s0.denotes(body, assign(a, var.id(), false))) by {
                    assert(s2.denotes(high, a) == s1.denotes(high, a));
                }
            }
        }
        r
    }

    /// The universal quantification of `var` in `body`.
    pub fn forall_var(&mut self, var: Var, body: BDD) -> (r: Result<BDD, NodeLimit>)
        requires
            var.tag() == old(self).tag(),
            old(self).wf(),
            var.id() < old(self).levels().len(),
            old(self).valid(body),
        ensures
            final(self).wf(),
            final(self).keeps(*old(self)),
            final(self).extends(*old(self)),
            final(self).levels() == old(self).levels(),
            r matches Ok(b) ==> final(self).valid(b) && forall|a: spec_fn(u32) -> bool| #[trigger]
                final(self).denotes(b, a) == (old(self).denotes(body, assign(a, var.id(), true))
                    && old(self).denotes(body, assign(a, var.id(), false))),
            r is Err ==> final(self).exhausted(),
    {
        let ghost s0 = *self;
        let negated = match self.not(body) {
            Ok(b) => b,
            Err(e) => return Err(e),
        };
        let ghost s1 = *self;
        let some = match self.exists_var(var, negated) {
            Ok(b) => b,
            Err(e) => {
                proof {
                    lemma_keeps_trans(s0, s1, *self);
                    lemma_extends_trans(s0, s1, *self);
                }
                return Err(e);
            },
        };
        let ghost s2 = *self;
        proof {
            lemma_keeps_trans(s0, s1, s2);
            lemma_extends_trans(s0, s1, s2);
        }
        let r = self.not(some);
        proof {
            lemma_keeps_trans(s0, s2, *self);
            lemma_extends_trans(s0, s2, *self);
            if r is Ok {
                assert forall|a: spec_fn(u32) -> bool| #[trigger]
                    self.denotes(r->Ok_0, a) == (s0.denotes(body, assign(a, var.id(), true))
                        && s0.denotes(body, assign(a, var.id(), false))) by {
                    assert(s1.denotes(negated, assign(a, var.id(), true)) == !s0.denotes(
                        body,
                        assign(a, var.id(), true),
                    ));
                    assert(s1.denotes(negated, assign(a, var.id(), false)) == !s0.denotes(
                        body,
                        assign(a, var.id(), false),
                    ));
                }
            }
        }
        r
    }
}

/// Whether some assignment of the variables `vars` makes `body` true under `a`, in `m`.
pub open spec fn some_assignment(m: Manager, body: BDD, vars: Seq<Var>, a: spec_fn(u32) -> bool) -> bool
    decreases vars.len(),
{
    if vars.len() == 0 {
        m.denotes(body, a)
    } else {
        some_assignment(m, body, vars.drop_last(), assign(a, vars.last().id(), true))
            || some_assignment(m, body, vars.drop_last(), assign(a, vars.last().id(), false))
    }
}

/// `b` gives every variable outside `vars` the value `a` gives it.
pub open spec fn differs_only_on(a: spec_fn(u32) -> bool, b: spec_fn(u32) -> bool, vars: Seq<Var>) -> bool {
    forall|x: u32| #![trigger b(x)] b(x) != a(x) ==> exists|i: int| 0 <= i < vars.len() && #[trigger] vars[i].id() == x
}

/// Existential quantification, read directly: some assignment of the variables `vars` makes
/// `body` true under `a` exactly when `body` holds under an assignment that agrees with `a`
/// outside `vars`.
pub proof fn lemma_some_assignment(m: Manager, body: BDD, vars: Seq<Var>, a: spec_fn(u32) -> bool)
    ensures
        some_assignment(m, body, vars, a) <==> exists|b: spec_fn(u32) -> bool|
            #[trigger] differs_only_on(a, b, vars) && m.denotes(body, b),
    decreases vars.len(),
{
    if vars.len() == 0 {
        assert(differs_only_on(a, a, vars));
        if exists|b: spec_fn(u32) -> bool| #[trigger] differs_only_on(a, b, vars) && m.denotes(body, b) {
            let b = choose|b: spec_fn(u32) -> bool| #[trigger] differs_only_on(a, b, vars) && m.denotes(body, b);
            assert(b =~= a) by {
                assert forall|x: u32| #[trigger] b(x) == a(x) by {
                    if b(x) != a(x) {
                        let i = choose|i: int| 0 <= i < vars.len() && #[trigger] vars[i].id() == x;
                    }
                }
            }
        }
    } else {
        let rest = vars.drop_last();
        let v = vars.last().id();
        let at = assign(a, v, true);
        let af = assign(a, v, false);
        lemma_some_assignment(m, body, rest, at);
        lemma_some_assignment(m, body, rest, af);
        if some_assignment(m, body, vars, a) {
            let t = if some_assignment(m, body, rest, at) { at } else { af };
            let b = choose|b: spec_fn(u32) -> bool| #[trigger] differs_only_on(t, b, rest) && m.denotes(body, b);
            assert forall|x: u32| #![trigger b(x)] b(x) != a(x) implies exists|i: int|
                0 <= i < vars.len() && #[trigger] vars[i].id() == x by {
                if x == v {
                    assert(vars[vars.len() - 1].id() == x);
                } else {
                    assert(b(x) != t(x));
                    let i = choose|i: int| 0 <= i < rest.len() && #[trigger] rest[i].id() == x;
                    assert(vars[i] == rest[i]);
                }
            }
            assert(differs_only_on(a, b, vars));
        }
        if exists|b: spec_fn(u32) -> bool| #[trigger] differs_only_on(a, b, vars) && m.denotes(body, b) {
            let b = choose|b: spec_fn(u32) -> bool| #[trigger] differs_only_on(a, b, vars) && m.denotes(body, b);
            let t = if b(v) { at } else { af };
            assert forall|x: u32| #![trigger b(x)] b(x) != t(x) implies exists|i: int|
                0 <= i < rest.len() && #[trigger] rest[i].id() == x by {
                assert(x != v);
                assert(b(x) != a(x));
                let i = choose|i: int| 0 <= i < vars.len() && #[trigger] vars[i].id() == x;
                assert(i != vars.len() - 1);
                assert(rest[i] == vars[i]);
            }
            assert(differs_only_on(t, b, rest));
        }
    }
}

/// Universal quantification, read directly: every assignment of the variables `vars` makes
/// `body` true under `a` exactly when `body` holds under every assignment that agrees with `a`
/// outside `vars`.
pub proof fn lemma_every_assignment(m: Manager, body: BDD, vars: Seq<Var>, a: spec_fn(u32) -> bool)
    ensures
        every_assignment(m, body, vars, a) <==> forall|b: spec_fn(u32) -> bool|
            #[trigger] differs_only_on(a, b, vars) ==> m.denotes(body, b),
    decreases vars.len(),
{
    if vars.len() == 0 {
        assert(differs_only_on(a, a, vars));
        if every_assignment(m, body, vars, a) {
            assert forall|b: spec_fn(u32) -> bool| #[trigger] differs_only_on(a, b, vars) implies m.denotes(
                body,
                b,
            ) by {
                assert(b =~= a) by {
                    assert forall|x: u32| #[trigger] b(x) == a(x) by {
                        if b(x) != a(x) {
                            let i = choose|i: int| 0 <= i < vars.len() && #[trigger] vars[i].id() == x;
                        }
                    }
                }
            }
        }
    } else {
        let rest = vars.drop_last();
        let v = vars.last().id();
        let at = assign(a, v, true);
        let af = assign(a, v, false);
        lemma_every_assignment(m, body, rest, at);
        lemma_every_assignment(m, body, rest, af);
        if every_assignment(m, body, vars, a) {
            assert forall|b: spec_fn(u32) -> bool| #[trigger] differs_only_on(a, b, vars) implies m.denotes(
                body,
                b,
            ) by {
                let t = if b(v) { at } else { af };
                assert forall|x: u32| #![trigger b(x)] b(x) != t(x) implies exists|i: int|
                    0 <= i < rest.len() && #[trigger] rest[i].id() == x by {
                    assert(x != v);
                    assert(b(x) != a(x));
                    let i = choose|i: int| 0 <= i < vars.len() && #[trigger] vars[i].id() == x;
                    assert(i != vars.len() - 1);
                    assert(rest[i] == vars[i]);
                }
                assert(differs_only_on(t, b, rest));
            }
        }
        if forall|b: spec_fn(u32) -> bool| #[trigger] differs_only_on(a, b, vars) ==> m.denotes(body, b) {
            assert forall|t: spec_fn(u32) -> bool, b: spec_fn(u32) -> bool|
                (t == at || t == af) && #[trigger] differs_only_on(t, b, rest) implies m.denotes(body, b) by {
                assert forall|x: u32| #![trigger b(x)] b(x) != a(x) implies exists|i: int|
                    0 <= i < vars.len() && #[trigger] vars[i].id() == x by {
                    if x == v {
                        assert(vars[vars.len() - 1].id() == x);
                    } else {
                        assert(b(x) != t(x));
                        let i = choose|i: int| 0 <= i < rest.len() && #[trigger] rest[i].id() == x;
                        assert(vars[i] == rest[i]);
                    }
                }
                assert(differs_only_on(a, b, vars));
            }
            assert forall|b: spec_fn(u32) -> bool| #[trigger] differs_only_on(at, b, rest) implies m.denotes(body, b) by {}
            assert forall|b: spec_fn(u32) -> bool| #[trigger] differs_only_on(af, b, rest) implies m.denotes(body, b) by {}
        }
    }
}

/// Whether every assignment of the variables `vars` makes `body` true under `a`, in `m`.
pub open spec fn every_assignment(m: Manager, body: BDD, vars: Seq<Var>, a: spec_fn(u32) -> bool) -> bool
    decreases vars.len(),
{
    if vars.len() == 0 {
        m.denotes(body, a)
    } else {
        every_assignment(m, body, vars.drop_last(), assign(a, vars.last().id(), true))
            && every_assignment(m, body, vars.drop_last(), assign(a, vars.last().id(), false))
    }
}

/// `if guard then then_ else else_`, in `manager`.
pub fn ite(manager: &mut Manager, guard: BDD, then_: BDD, else_: BDD) -> (r: Result<BDD, NodeLimit>)
    requires
        old(manager).wf(),
        old(manager).valid(guard),
        old(manager).valid(then_),
        old(manager).valid(else_),
    ensures
        final(manager).wf(),
        final(manager).keeps(*old(manager)),
        final(manager).extends(*old(manager)),
        final(manager).levels() == old(manager).levels(),
        r matches Ok(b) ==> final(manager).valid(b) && forall|a: spec_fn(u32) -> bool| #[trigger]
            final(manager).denotes(b, a) == if old(manager).denotes(guard, a) {
                old(manager).denotes(then_, a)
            } else {
                old(manager).denotes(else_, a)
            },
        r is Err ==> final(manager).exhausted(),
{
    manager.ite(guard, then_, else_)
}

/// `body` with the variable of `lit` fixed to the literal's value, in `manager`.
pub fn restrict(manager: &mut Manager, lit: Lit, body: BDD) -> (r: Result<BDD, NodeLimit>)
    requires
        lit.var().tag() == old(manager).tag(),
        old(manager).wf(),
        lit.var().id() < old(manager).levels().len(),
        old(manager).valid(body),
    ensures
        final(manager).wf(),
        final(manager).keeps(*old(manager)),
        final(manager).extends(*old(manager)),
        final(manager).levels() == old(manager).levels(),
        r matches Ok(b) ==> final(manager).valid(b) && forall|a: spec_fn(u32) -> bool| #[trigger]
            final(manager).denotes(b, a) == old(manager).denotes(
                body,
                assign(a, lit.var().id(), lit.value()),
            ),
        r is Err ==> final(manager).exhausted(),
{
    manager.restrict(lit, body)
}

/// The implication from `left` to `right`, in `manager`.
pub fn implies(manager: &mut Manager, left: BDD, right: BDD) -> (r: Result<BDD, NodeLimit>)
    requires
        old(manager).wf(),
        old(manager).valid(left),
        old(manager).valid(right),
    ensures
        final(manager).wf(),
        final(manager).keeps(*old(manager)),
        final(manager).extends(*old(manager)),
        final(manager).levels() == old(manager).levels(),
        r matches Ok(b) ==> final(manager).valid(b) && forall|a: spec_fn(u32) -> bool| #[trigger]
            final(manager).denotes(b, a) == (old(manager).denotes(left, a) ==> old(manager).denotes(
                right,
                a,
            )),
        r is Err ==> final(manager).exhausted(),
{
    manager.implies(left, right)
}

/// The existential quantification of each of `vars` in `body`, the first one innermost.
pub fn exists_vars(manager: &mut Manager, vars: &Vec<Var>, body: BDD) -> (r: Result<BDD, NodeLimit>)
    requires
        forall|i: int| 0 <= i < vars@.len() ==> (#[trigger] vars@[i]).tag() == old(manager).tag(),
        old(manager).wf(),
        old(manager).valid(body),
        forall|i: int| 0 <= i < vars@.len() ==> (#[trigger] vars@[i]).id() < old(manager).levels().len(),
    ensures
        final(manager).wf(),
        final(manager).keeps(*old(manager)),
        final(manager).extends(*old(manager)),
        final(manager).levels() == old(manager).levels(),
        r matches Ok(b) ==> final(manager).valid(b) && forall|a: spec_fn(u32) -> bool| #[trigger]
            final(manager).denotes(b, a) == some_assignment(*old(manager), body, vars@, a),
        r matches Ok(b) ==> forall|a: spec_fn(u32) -> bool| #[trigger]
            final(manager).denotes(b, a) <==> exists|c: spec_fn(u32) -> bool|
                #[trigger] differs_only_on(a, c, vars@) && old(manager).denotes(body, c),
        r is Err ==> final(manager).exhausted(),
{
    let mut acc = body;
    let mut i: usize = 0;
    proof {
        assert(vars@.subrange(0, 0).len() == 0);
    }
    while i < vars.len()
        invariant
            manager.wf(),
            manager.keeps(*old(manager)),
            manager.extends(*old(manager)),
            manager.levels() == old(manager).levels(),
            old(manager).valid(body),
            i <= vars@.len(),
            forall|j: int| 0 <= j < vars@.len() ==> (#[trigger] vars@[j]).id() < old(manager).levels().len()
                && vars@[j].tag() == old(manager).tag(),
            manager.valid(acc),
            forall|a: spec_fn(u32) -> bool| #[trigger]
                manager.denotes(acc, a) == some_assignment(
                    *old(manager),
                    body,
                    vars@.subrange(0, i as int),
                    a,
                ),
        decreases vars@.len() - i,
    {
        let ghost prev = *manager;
        let v = vars[i];
        proof {
            assert(vars@[i as int].id() < old(manager).levels().len());
        }
        let ghost pacc = acc;
        acc = match manager.exists_var(v, acc) {
            Ok(b) => b,
            Err(e) => {
                proof {
                    lemma_keeps_trans(*old(manager), prev, *manager);
                    lemma_extends_trans(*old(manager), prev, *manager);
                }
                return Err(e);
            },
        };
        proof {
            lemma_keeps_trans(*old(manager), prev, *manager);
            lemma_extends_trans(*old(manager), prev, *manager);
            let next = vars@.subrange(0, i + 1);
            assert(next.drop_last() =~= vars@.subrange(0, i as int));
            assert forall|a: spec_fn(u32) -> bool| #[trigger]
                manager.denotes(acc, a) == some_assignment(*old(manager), body, next, a) by {
                assert(prev.denotes(pacc, assign(a, v.id(), true)) == some_assignment(
                    *old(manager),
                    body,
                    vars@.subrange(0, i as int),
                    assign(a, v.id(), true),
                ));
                assert(prev.denotes(pacc, assign(a, v.id(), false)) == some_assignment(
                    *old(manager),
                    body,
                    vars@.subrange(0, i as int),
                    assign(a, v.id(), false),
                ));
                assert(next.last() == v);
            }
        }
        i = i + 1;
    }
    proof {
        assert(vars@.subrange(0, vars@.len() as int) =~= vars@);
        assert forall|a: spec_fn(u32) -> bool| #[trigger] manager.denotes(acc, a) <==> exists|
            c: spec_fn(u32) -> bool,
        | #[trigger] differs_only_on(a, c, vars@) && old(manager).denotes(body, c) by {
            lemma_some_assignment(*old(manager), body, vars@, a);
        }
    }
    Ok(acc)
}

/// The universal quantification of each of `vars` in `body`, the first one innermost.
pub fn forall_vars(manager: &mut Manager, vars: &Vec<Var>, body: BDD) -> (r: Result<BDD, NodeLimit>)
    requires
        forall|i: int| 0 <= i < vars@.len() ==> (#[trigger] vars@[i]).tag() == old(manager).tag(),
        old(manager).wf(),
        old(manager).valid(body),
        forall|i: int| 0 <= i < vars@.len() ==> (#[trigger] vars@[i]).id() < old(manager).levels().len(),
    ensures
        final(manager).wf(),
        final(manager).keeps(*old(manager)),
        final(manager).extends(*old(manager)),
        final(manager).levels() == old(manager).levels(),
        r matches Ok(b) ==> final(manager).valid(b) && forall|a: spec_fn(u32) -> bool| #[trigger]
            final(manager).denotes(b, a) == every_assignment(*old(manager), body, vars@, a),
        r matches Ok(b) ==> forall|a: spec_fn(u32) -> bool| #[trigger]
            final(manager).denotes(b, a) <==> forall|c: spec_fn(u32) -> bool|
                #[trigger] differs_only_on(a, c, vars@) ==> old(manager).denotes(body, c),
        r is Err ==> final(manager).exhausted(),
{
    let mut acc = body;
    let mut i: usize = 0;
    proof {
        assert(vars@.subrange(0, 0).len() == 0);
    }
    while i < vars.len()
        invariant
            manager.wf(),
            manager.keeps(*old(manager)),
            manager.extends(*old(manager)),
            manager.levels() == old(manager).levels(),
            old(manager).valid(body),
            i <= vars@.len(),
            forall|j: int| 0 <= j < vars@.len() ==> (#[trigger] vars@[j]).id() < old(manager).levels().len()
                && vars@[j].tag() == old(manager).tag(),
            manager.valid(acc),
            forall|a: spec_fn(u32) -> bool| #[trigger]
                manager.denotes(acc, a) == every_assignment(
                    *old(manager),
                    body,
                    vars@.subrange(0, i as int),
                    a,
                ),
        decreases vars@.len() - i,
    {
        let ghost prev = *manager;
        let v = vars[i];
        proof {
            assert(vars@[i as int].id() < old(manager).levels().len());
        }
        let ghost pacc = acc;
        acc = match manager.forall_var(v, acc) {
            Ok(b) => b,
            Err(e) => {
                proof {
                    lemma_keeps_trans(*old(manager), prev, *manager);
                    lemma_extends_trans(*old(manager), prev, *manager);
                }
                return Err(e);
            },
        };
        proof {
            lemma_keeps_trans(*old(manager), prev, *manager);
            lemma_extends_trans(*old(manager), prev, *manager);
            let next = vars@.subrange(0, i + 1);
            assert(next.drop_last() =~= vars@.subrange(0, i as int));
            assert forall|a: spec_fn(u32) -> bool| #[trigger]
                manager.denotes(acc, a) == every_assignment(*old(manager), body, next, a) by {
                assert(prev.denotes(pacc, assign(a, v.id(), true)) == every_assignment(
                    *old(manager),
                    body,
                    vars@.subrange(0, i as int),
                    assign(a, v.id(), true),
                ));
                assert(prev.denotes(pacc, assign(a, v.id(), false)) == every_assignment(
                    *old(manager),
                    body,
                    vars@.subrange(0, i as int),
                    assign(a, v.id(), false),
                ));
                assert(next.last() == v);
            }
        }
        i = i + 1;
    }
    proof {
        assert(vars@.subrange(0, vars@.len() as int) =~= vars@);
        assert forall|a: spec_fn(u32) -> bool| #[trigger] manager.denotes(acc, a) <==> forall|
            c: spec_fn(u32) -> bool,
        | #[trigger] differs_only_on(a, c, vars@) ==> old(manager).denotes(body, c) by {
            lemma_every_assignment(*old(manager), body, vars@, a);
        }
    }
    Ok(acc)
}

/// Where the swaps that carry the variable at level `lo` down by `k` levels put a variable
/// that started at level `l`.
pub open spec fn sunk(l: u32, lo: u32, k: u32) -> u32 {
    if l == lo {
        (lo + k) as u32
    } else if lo < l && l <= lo + k {
        (l - 1) as u32
    } else {
        l
    }
}

/// `lv` is `lv0` part of the way through exchanging the variables at levels `lo < hi`: the one
/// from `lo` sunk by `k < hi - lo` levels, or already at `hi` with the one from `hi` carried
/// back up to level `lo + j`, `0 < j < hi - lo`.
pub open spec fn partly_swapped(lv0: Seq<u32>, lv: Seq<u32>, lo: u32, hi: u32) -> bool {
    &&& lv.len() == lv0.len()
    &&& {
        ||| exists|k: u32| k < hi - lo && #[trigger] sunk_all(lv0, lv, lo, k)
        ||| exists|j: u32| 0 < j < hi - lo && #[trigger] raised_all(lv0, lv, lo, hi, j)
    }
}

/// Each level of `lv` is the one of `lv0` as [sunk] gives it.
pub open spec fn sunk_all(lv0: Seq<u32>, lv: Seq<u32>, lo: u32, k: u32) -> bool {
    forall|v: int| 0 <= v < lv0.len() ==> #[trigger] lv[v] == sunk(lv0[v], lo, k)
}

/// Each level of `lv` is the one of `lv0` as [raised] gives it.
pub open spec fn raised_all(lv0: Seq<u32>, lv: Seq<u32>, lo: u32, hi: u32, j: u32) -> bool {
    forall|v: int| 0 <= v < lv0.len() ==> #[trigger] lv[v] == raised(lv0[v], lo, hi, j)
}

/// Where a variable that started at level `l` stands once the variable from `hi` has been
/// carried back up to level `lo + j`, after the one from `lo` was sunk to `hi`.
pub open spec fn raised(l: u32, lo: u32, hi: u32, j: u32) -> u32 {
    if l == lo {
        hi
    } else if l == hi {
        (lo + j) as u32
    } else if lo < l && l < hi && l <= lo + j {
        (l - 1) as u32
    } else {
        l
    }
}

/// A node to intern with [Manager::make]: a variable and the diagrams of its two branches.
#[derive(Clone, Copy, PartialEq, Eq, Structural, Hash, Debug)]
pub struct Node {
    pub var: Var,
    pub high: BDD,
    pub low: BDD,
}

/// The root of a diagram: a constant, or a node.
#[derive(Clone, Copy, PartialEq, Eq, Structural, Hash, Debug)]
pub enum Tree {
    /// A constant diagram.
    Terminal(bool),
    /// A diagram whose root tests a variable.
    Node(Node),
}

impl Manager {
    /// Exchange the level of the variable at `level` with the one right below it; nothing
    /// happens when `level` is the last level.
    fn swap_level(&mut self, level: u32) -> (r: Result<(), NodeLimit>)
        requires
            old(self).wf(),
            level < old(self).levels().len(),
        ensures
            final(self).wf(),
            final(self).keeps(*old(self)),
            final(self).counted(*old(self)),
            r is Ok ==> final(self).levels() == swapped_levels(old(self).levels(), level),
            r is Err ==> final(self).levels() == old(self).levels() && final(self).exhausted(),
    {
        let done = self.inner.swap(level);
        proof {
            lemma_keeps(old(self), self);
        }
        if done {
            Ok(())
        } else {
            Err(NodeLimit)
        }
    }

    /// Exchange the position of `var` in the order with that of the variable right after it;
    /// nothing happens when `var` is the last one.
    pub fn swap_adjacent(&mut self, var: Var) -> (r: Result<(), NodeLimit>)
        requires
            var.tag() == old(self).tag(),
            old(self).wf(),
            var.id() < old(self).levels().len(),
        ensures
            final(self).wf(),
            final(self).keeps(*old(self)),
            final(self).counted(*old(self)),
            r is Ok ==> final(self).levels() == swapped_levels(
                old(self).levels(),
                old(self).levels()[var.id() as int],
            ),
            r is Err ==> final(self).levels() == old(self).levels() && final(self).exhausted(),
    {
        let level = self.inner.level(var.var.0);
        self.swap_level(level)
    }

    /// Exchange the positions of `v1` and `v2` in the order, leaving every other variable where
    /// it is.
    pub fn swap(&mut self, v1: Var, v2: Var) -> (r: Result<(), NodeLimit>)
        requires
            v1.tag() == old(self).tag(),
            v2.tag() == old(self).tag(),
            old(self).wf(),
            v1.id() < old(self).levels().len(),
            v2.id() < old(self).levels().len(),
        ensures
            final(self).wf(),
            final(self).keeps(*old(self)),
            final(self).counted(*old(self)),
            r is Ok ==> final(self).levels() == old(self).levels().update(
                v1.id() as int,
                old(self).levels()[v2.id() as int],
            ).update(v2.id() as int, old(self).levels()[v1.id() as int]),
            r is Err ==> final(self).exhausted(),
            r is Err ==> {
                let l1 = old(self).levels()[v1.id() as int];
                let l2 = old(self).levels()[v2.id() as int];
                if l1 < l2 {
                    partly_swapped(old(self).levels(), final(self).levels(), l1, l2)
                } else {
                    partly_swapped(old(self).levels(), final(self).levels(), l2, l1)
                }
            },
    {
        let ghost lv0 = self.levels();
        proof {
            self.inner.order.lemma_wf();
        }
        if v1 == v2 {
            proof {
                assert(lv0.update(v1.id() as int, lv0[v2.id() as int]).update(
                    v2.id() as int,
                    lv0[v1.id() as int],
                ) =~= lv0);
            }
            return Ok(());
        }
        let l1 = self.inner.level(v1.var.0);
        let l2 = self.inner.level(v2.var.0);
        let lo = if l1 < l2 {
            l1
        } else {
            l2
        };
        let hi = if l1 < l2 {
            l2
        } else {
            l1
        };
        proof {
            assert(l1 != l2);
        }
        let d = hi - lo;
        let mut i: u32 = 0;
        while i < d
            invariant
                self.wf(),
                self.keeps(*old(self)),
                self.counted(*old(self)),
                lv0 == old(self).levels(),
                self.levels().len() == lv0.len(),
                v1.id() < lv0.len() && v2.id() < lv0.len(),
                lo == if lv0[v1.id() as int] < lv0[v2.id() as int] {
                    lv0[v1.id() as int]
                } else {
                    lv0[v2.id() as int]
                },
                hi == if lv0[v1.id() as int] < lv0[v2.id() as int] {
                    lv0[v2.id() as int]
                } else {
                    lv0[v1.id() as int]
                },
                lo < hi < lv0.len(),
                d == hi - lo,
                i <= d,
                forall|v: int| 0 <= v < lv0.len() ==> #[trigger] self.levels()[v] == sunk(lv0[v], lo, i),
            decreases d - i,
        {
            let ghost prev = *self;
            match self.swap_level(lo + i) {
                Ok(()) => {},
                Err(e) => {
                    proof {
                        lemma_keeps_trans(*old(self), prev, *self);
                        lemma_counted_trans(*old(self), prev, *self);
                        assert(sunk_all(lv0, self.levels(), lo, i));
                        assert(partly_swapped(lv0, self.levels(), lo, hi));
                    }
                    return Err(e);
                },
            }
            proof {
                lemma_keeps_trans(*old(self), prev, *self);
                lemma_counted_trans(*old(self), prev, *self);
                assert forall|v: int| 0 <= v < lv0.len() implies #[trigger] self.levels()[v] == sunk(
                    lv0[v],
                    lo,
                    (i + 1) as u32,
                ) by {
                    assert(self.levels()[v] == swapped_levels(prev.levels(), (lo + i) as u32)[v]);
                    assert(prev.levels()[v] == sunk(lv0[v], lo, i));
                }
            }
            i = i + 1;
        }
        let mut j: u32 = d - 1;
        proof {
            assert forall|v: int| 0 <= v < lv0.len() implies #[trigger] self.levels()[v] == raised(
                lv0[v],
                lo,
                hi,
                j,
            ) by {
                assert(self.levels()[v] == sunk(lv0[v], lo, d));
            }
        }
        while j > 0
            invariant
                self.wf(),
                self.keeps(*old(self)),
                self.counted(*old(self)),
                lv0 == old(self).levels(),
                self.levels().len() == lv0.len(),
                v1.id() < lv0.len() && v2.id() < lv0.len(),
                lo == if lv0[v1.id() as int] < lv0[v2.id() as int] {
                    lv0[v1.id() as int]
                } else {
                    lv0[v2.id() as int]
                },
                hi == if lv0[v1.id() as int] < lv0[v2.id() as int] {
                    lv0[v2.id() as int]
                } else {
                    lv0[v1.id() as int]
                },
                lo < hi < lv0.len(),
                d == hi - lo,
                j < d,
                forall|v: int| 0 <= v < lv0.len() ==> #[trigger] self.levels()[v] == raised(
                    lv0[v],
                    lo,
                    hi,
                    j,
                ),
            decreases j,
        {
            j = j - 1;
            let ghost prev = *self;
            match self.swap_level(lo + j) {
                Ok(()) => {},
                Err(e) => {
                    proof {
                        lemma_keeps_trans(*old(self), prev, *self);
                        lemma_counted_trans(*old(self), prev, *self);
                        let jj = (j + 1) as u32;
                        assert(0 < jj < hi - lo);
                        assert(raised_all(lv0, self.levels(), lo, hi, jj));
                        assert(partly_swapped(lv0, self.levels(), lo, hi));
                    }
                    return Err(e);
                },
            }
            proof {
                lemma_keeps_trans(*old(self), prev, *self);
                lemma_counted_trans(*old(self), prev, *self);
                assert forall|v: int| 0 <= v < lv0.len() implies #[trigger] self.levels()[v] == raised(
                    lv0[v],
                    lo,
                    hi,
                    j,
                ) by {
                    assert(self.levels()[v] == swapped_levels(prev.levels(), (lo + j) as u32)[v]);
                    assert(prev.levels()[v] == raised(lv0[v], lo, hi, (j + 1) as u32));
                }
            }
        }
        proof {
            let target = lv0.update(v1.id() as int, lv0[v2.id() as int]).update(
                v2.id() as int,
                lv0[v1.id() as int],
            );
            assert forall|v: int| 0 <= v < lv0.len() implies #[trigger] self.levels()[v] == target[v] by {
                assert(self.levels()[v] == raised(lv0[v], lo, hi, 0));
                if v != v1.id() && v != v2.id() {
                    assert(lv0[v] != lv0[v1.id() as int]);
                    assert(lv0[v] != lv0[v2.id() as int]);
                }
            }
            assert(self.levels() =~= target);
        }
        Ok(())
    }

    /// Intern `node`: the diagram that branches on `node.var` between `node.high` and
    /// `node.low`, which must both sit below the variable.
    pub fn make(&mut self, node: Node) -> (r: Result<BDD, NodeLimit>)
        requires
            node.var.tag() == old(self).tag(),
            old(self).wf(),
            node.var.id() < old(self).levels().len(),
            old(self).valid(node.high),
            old(self).valid(node.low),
            node.high != node.low ==> old(self).root_level(node.high) > old(self).levels()[node.var.id() as int],
            node.high != node.low ==> old(self).root_level(node.low) > old(self).levels()[node.var.id() as int],
        ensures
            final(self).wf(),
            final(self).keeps(*old(self)),
            final(self).extends(*old(self)),
            final(self).levels() == old(self).levels(),
            r matches Ok(b) ==> {
                &&& final(self).valid(b)
                &&& (node.high == node.low ==> b == node.high)
                &&& (node.high != node.low ==> final(self).root_level(b) == old(self).levels()[node.var.id() as int])
                &&& forall|a: spec_fn(u32) -> bool| #[trigger]
                    final(self).denotes(b, a) == if a(node.var.id()) {
                        old(self).denotes(node.high, a)
                    } else {
                        old(self).denotes(node.low, a)
                    }
            },
            r is Err ==> final(self).exhausted(),
            !old(self).exhausted() ==> r is Ok,
            forall|c: BDD| #[trigger] old(self).is_node(c, node) ==> r == Ok::<BDD, NodeLimit>(c),
    {
        let ghost key = (node.var.id(), node.high.id.0, node.low.id.0);
        let r = self.inner.make(node.var.var.0, node.high.id.0, node.low.id.0);
        proof {
            lemma_grows_keeps(&old(self).inner, &self.inner);
            lemma_keeps(old(self), self);
        }
        match r {
            Some(id) => {
                proof {
                    graph::lemma_extend_function(
                        old(self).inner.graph(),
                        self.inner.graph(),
                        self.inner.levels(),
                        node.high.id.0,
                    );
                    graph::lemma_extend_function(
                        old(self).inner.graph(),
                        self.inner.graph(),
                        self.inner.levels(),
                        node.low.id.0,
                    );
                    if node.high != node.low {
                        lemma_made(
                            self.inner.graph(),
                            self.inner.levels(),
                            node.var.var.0,
                            node.high.id.0,
                            node.low.id.0,
                            id,
                        );
                        lemma_eval_node(self.inner.graph(), self.inner.levels(), id, |v: u32| true);
                    }
                    lemma_injective(&self.inner);
                    assert forall|c: BDD| #[trigger] old(self).is_node(c, node) implies c == BDD {
                        id: SlotID(id),
                        manager: self.tag,
                    } by {
                        assert(old(self).inner.graph().dom().contains(c.id.0));
                        assert(node_ok(old(self).inner.graph(), old(self).inner.levels(), c.id.0));
                        assert(old(self).valid(c));
                        assert(self.valid(c));
                        assert(self.inner.graph().dom().contains(c.id.0));
                        assert(self.inner.graph()[c.id.0] == old(self).inner.graph()[c.id.0]);
                        assert(self.inner.graph()[c.id.0] == self.inner.graph()[id]);
                    }
                }
                Ok(BDD { id: SlotID(id), manager: self.tag })
            },
            None => {
                proof {
                    assert forall|c: BDD| #[trigger] old(self).is_node(c, node) implies false by {
                        assert(old(self).inner.graph().dom().contains(c.id.0));
                        assert(old(self).inner.uniq().dom().contains(key));
                    }
                }
                Err(NodeLimit)
            },
        }
    }

    /// `b` is a stored node on the variable of `node`, with the branches of `node`.
    pub closed spec fn is_node(&self, b: BDD, node: Node) -> bool {
        &&& b.manager == self.tag
        &&& self.inner.graph().dom().contains(b.id.0)
        &&& self.inner.graph()[b.id.0] == (node.var.id(), node.high.id.0, node.low.id.0)
    }

    /// Discard every node that no diagram of `live` needs. Diagrams reachable from `live` stay
    /// valid with the same function; the others stop being valid.
    pub fn reclaim(&mut self, live: &Vec<BDD>)
        requires
            old(self).wf(),
            forall|i: int| 0 <= i < live@.len() ==> old(self).valid(#[trigger] live@[i]),
        ensures
            final(self).wf(),
            final(self).tag() == old(self).tag(),
            final(self).levels() == old(self).levels(),
            final(self).exhausted() == old(self).exhausted(),
            forall|i: int| 0 <= i < live@.len() ==> final(self).valid(#[trigger] live@[i]),
            forall|b: BDD| #[trigger]
                final(self).valid(b) ==> old(self).valid(b) && forall|a: spec_fn(u32) -> bool|
                    #[trigger] final(self).denotes(b, a) == old(self).denotes(b, a),
            forall|b: BDD| #[trigger]
                final(self).valid(b) <==> ((is_terminal(b.id()) && b.tag() == old(self).tag()) || (old(self).valid(b) && exists|i: int|
                    0 <= i < live@.len() && #[trigger] old(self).reaches(live@[i], b))),
            forall|b: BDD|
                final(self).valid(b) ==> #[trigger] final(self).paths(b) == old(self).paths(b)
                    && final(self).root_level(b) == old(self).root_level(b),
    {
        let mut roots: Vec<u32> = Vec::new();
        let mut i: usize = 0;
        while i < live.len()
            invariant
                i <= live@.len(),
                roots@.len() == i,
                forall|j: int| 0 <= j < i ==> roots@[j] == (#[trigger] live@[j]).id(),
            decreases live@.len() - i,
        {
            roots.push(live[i].id.0);
            i = i + 1;
        }
        proof {
            assert forall|j: int| 0 <= j < roots@.len() implies old(self).inner.live(#[trigger] roots@[j]) by {
                assert(old(self).valid(live@[j]));
            }
        }
        self.inner.reclaim(&roots);
        proof {
            assert forall|j: int| 0 <= j < live@.len() implies self.valid(#[trigger] live@[j]) by {
                assert(self.inner.live(roots@[j]));
            }
            assert forall|b: BDD| #[trigger] self.valid(b) implies old(self).valid(b) && forall|
                a: spec_fn(u32) -> bool,
            | #[trigger] self.denotes(b, a) == old(self).denotes(b, a) by {
                assert(self.inner.live(b.id.0));
            }
            assert forall|b: BDD| self.valid(b) implies #[trigger] self.paths(b) == old(self).paths(b)
                && self.root_level(b) == old(self).root_level(b) by {
                model::lemma_paths_submap(
                    old(self).inner.graph(),
                    self.inner.graph(),
                    self.inner.levels(),
                    b.id.0,
                );
            }
            assert forall|b: BDD| #[trigger] self.valid(b) <==> ((is_terminal(b.id()) && b.tag() == old(
                self,
            ).tag()) || (old(self).valid(b) && exists|i: int| 0 <= i < live@.len() && #[trigger] old(self).reaches(live@[i], b))) by {
                if !is_terminal(b.id()) && old(self).valid(b) && exists|i: int|
                    0 <= i < live@.len() && #[trigger] old(self).reaches(live@[i], b) {
                    let i = choose|i: int| 0 <= i < live@.len() && #[trigger] old(self).reaches(live@[i], b);
                    assert(reaches(old(self).inner.graph(), old(self).inner.levels(), roots@[i], b.id.0));
                }
                if self.valid(b) && !is_terminal(b.id()) {
                    let i = choose|i: int|
                        0 <= i < roots@.len() && #[trigger] reaches(
                            old(self).inner.graph(),
                            old(self).inner.levels(),
                            roots@[i],
                            b.id.0,
                        );
                    assert(old(self).reaches(live@[i], b));
                }
            }
        }
    }

    /// Whether the diagram `to` is reachable from `from` by following branches.
    pub closed spec fn reaches(&self, from: BDD, to: BDD) -> bool {
        reaches(self.inner.graph(), self.inner.levels(), from.id.0, to.id.0)
    }
}

impl BDD {
    /// The root of the diagram in `manager`: its constant value, or the node it is.
    pub fn tree(&self, manager: &Manager) -> (r: Tree)
        requires
            manager.wf(),
            manager.valid(*self),
        ensures
            r matches Tree::Terminal(v) ==> manager.root_level(*self) == manager.levels().len()
                && forall|a: spec_fn(u32) -> bool| #[trigger] manager.denotes(*self, a) == v,
            r matches Tree::Node(n) ==> {
                &&& n.var.id() < manager.levels().len()
                &&& n.var.tag() == manager.tag()
                &&& manager.root_level(*self) == manager.levels()[n.var.id() as int]
                &&& manager.valid(n.high)
                &&& manager.valid(n.low)
                &&& n.high != n.low
                &&& manager.reaches(*self, n.high)
                &&& manager.reaches(*self, n.low)
                &&& manager.root_level(n.high) > manager.levels()[n.var.id() as int]
                &&& manager.root_level(n.low) > manager.levels()[n.var.id() as int]
                &&& forall|a: spec_fn(u32) -> bool| #[trigger]
                    manager.denotes(*self, a) == if a(n.var.id()) {
                        manager.denotes(n.high, a)
                    } else {
                        manager.denotes(n.low, a)
                    }
            },
    {
        if self.id.0 == 0 || self.id.0 == 1 {
            return Tree::Terminal(self.id.0 == 1);
        }
        let t = manager.inner.node(self.id.0);
        proof {
            assert(node_ok(manager.inner.graph(), manager.inner.levels(), self.id.0));
            assert forall|a: spec_fn(u32) -> bool| #[trigger]
                manager.denotes(*self, a) == if a(t.0) {
                    manager.denotes(BDD { id: SlotID(t.1), manager: manager.tag }, a)
                } else {
                    manager.denotes(BDD { id: SlotID(t.2), manager: manager.tag }, a)
                } by {
                lemma_eval_node(manager.inner.graph(), manager.inner.levels(), self.id.0, a);
            }
            lemma_eval_node(manager.inner.graph(), manager.inner.levels(), self.id.0, |v: u32| true);
            let g = manager.inner.graph();
            let lv = manager.inner.levels();
            assert(reaches(g, lv, t.1, t.1));
            assert(reaches(g, lv, t.2, t.2));
            assert(reaches(g, lv, self.id.0, t.1));
            assert(reaches(g, lv, self.id.0, t.2));
        }
        Tree::Node(
            Node { var: Var { var: VarID(t.0), manager: manager.tag }, high: BDD { id: SlotID(t.1), manager: manager.tag }, low: BDD { id: SlotID(t.2), manager: manager.tag } },
        )
    }

    /// Whether the diagram is the constant function `value` in `manager`.
    pub fn eq_bool(&self, manager: &Manager, value: bool) -> (r: bool)
        requires
            manager.wf(),
            manager.valid(*self),
        ensures
            r == forall|a: spec_fn(u32) -> bool| #[trigger] manager.denotes(*self, a) == value,
    {
        let terminal: u32 = if value {
            1
        } else {
            0
        };
        proof {
            let g = manager.inner.graph();
            let lv = manager.inner.levels();
            if self.id.0 != terminal {
                if forall|a: spec_fn(u32) -> bool| #[trigger] manager.denotes(*self, a) == value {
                    lemma_injective(&manager.inner);
                    assert forall|a: spec_fn(u32) -> bool| #[trigger] eval(g, lv, self.id.0, a) == eval(
                        g,
                        lv,
                        terminal,
                        a,
                    ) by {
                        assert(manager.denotes(*self, a) == value);
                    }
                    lemma_canonical(g, lv, self.id.0, terminal);
                }
            }
        }
        self.id.0 == terminal
    }
}

/// Every diagram reachable from a diagram of the manager is a diagram of the manager, so
/// [BDD::tree] shows its root too: a constant, or a node on a variable whose two branches differ
/// and test only variables below it.
pub proof fn lemma_reachable_valid(manager: Manager, b: BDD, c: BDD)
    requires
        c.tag() == b.tag(),
        manager.wf(),
        manager.valid(b),
        manager.reaches(b, c),
    ensures
        manager.valid(c),
{
    graph::lemma_reaches_live(manager.inner.graph(), manager.inner.levels(), b.id.0, c.id.0);
}

/// Canonicity: two diagrams of a manager that denote the same function are the same diagram.
pub proof fn lemma_canonical_diagrams(manager: Manager, b1: BDD, b2: BDD)
    requires
        manager.wf(),
        manager.valid(b1),
        manager.valid(b2),
        forall|a: spec_fn(u32) -> bool| #[trigger] manager.denotes(b1, a) == manager.denotes(b2, a),
    ensures
        b1 == b2,
{
    lemma_injective(&manager.inner);
    assert forall|a: spec_fn(u32) -> bool| #[trigger]
        eval(manager.inner.graph(), manager.inner.levels(), b1.id.0, a) == eval(
            manager.inner.graph(),
            manager.inner.levels(),
            b2.id.0,
            a,
        ) by {
        assert(manager.denotes(b1, a) == manager.denotes(b2, a));
    }
    lemma_canonical(manager.inner.graph(), manager.inner.levels(), b1.id.0, b2.id.0);
}

impl Manager {
    /// The models of `b`: the literals read along each path from its root to the `true`
    /// terminal, the paths through low branches first.
    pub closed spec fn paths(&self, b: BDD) -> Seq<Seq<(u32, bool)>> {
        model::paths(self.inner.graph(), self.inner.levels(), b.id.0)
    }
}

/// What `paths` stands for.
proof fn lemma_paths_is(manager: Manager, b: BDD)
    ensures
        manager.paths(b) == model::paths(manager.inner.graph(), manager.inner.levels(), b.id.0),
{
}

/// An assignment makes a diagram true exactly when it agrees with one of the diagram's models.
pub proof fn lemma_models(manager: Manager, b: BDD, a: spec_fn(u32) -> bool)
    requires
        manager.wf(),
        manager.valid(b),
    ensures
        manager.denotes(b, a) <==> exists|i: int|
            0 <= i < manager.paths(b).len() && model::consistent(#[trigger] manager.paths(b)[i], a),
{
    let ps = model::paths(manager.inner.graph(), manager.inner.levels(), b.id.0);
    assert(manager.paths(b) == ps);
    model::lemma_paths_eval(manager.inner.graph(), manager.inner.levels(), b.id.0, a);
    if manager.denotes(b, a) {
        let i = choose|i: int| 0 <= i < ps.len() && model::consistent(#[trigger] ps[i], a);
        assert(model::consistent(manager.paths(b)[i], a));
    }
}

/// The models of a diagram are disjoint: no assignment agrees with two of them, so an
/// assignment that makes the diagram true agrees with exactly one of its models.
pub proof fn lemma_models_disjoint(manager: Manager, b: BDD, i: int, j: int, a: spec_fn(u32) -> bool)
    requires
        manager.wf(),
        manager.valid(b),
        0 <= i < manager.paths(b).len(),
        0 <= j < manager.paths(b).len(),
        i != j,
    ensures
        !(model::consistent(manager.paths(b)[i], a) && model::consistent(manager.paths(b)[j], a)),
{
    let g = manager.inner.graph();
    let lv = manager.inner.levels();
    if i < j {
        model::lemma_paths_disjoint(g, lv, b.id.0, i, j, a);
    } else {
        model::lemma_paths_disjoint(g, lv, b.id.0, j, i, a);
    }
}

/// A level holds a single variable: two variables at the same level are the same variable.
pub proof fn lemma_level_identifies(manager: Manager, v: Var, w: Var)
    requires
        v.tag() == manager.tag(),
        w.tag() == manager.tag(),
        manager.wf(),
        v.id() < manager.levels().len(),
        w.id() < manager.levels().len(),
        manager.levels()[v.id() as int] == manager.levels()[w.id() as int],
    ensures
        v == w,
{
    manager.inner.order.lemma_wf();
}

} // verus!
