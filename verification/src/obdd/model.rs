//! Models of a diagram: the partial assignments read along the paths from the root to the
//! `true` terminal, enumerated one at a time by a depth-first walk.

use super::graph::{eval, graph_wf, is_terminal, lemma_eval_node, live, node_ok, top_level};
use super::order::VarID;
use super::inner::SlotID;
use super::{lemma_extends_is, lemma_paths_is, Lit, Manager, Var, BDD};
use vstd::prelude::*;

verus! {

/// The paths from `id` to the `true` terminal, each as the literals `(variable, value)` it
/// reads, in order; the paths through the low branch of a node come before those through its
/// high branch.
pub open spec fn paths(nodes: Map<u32, (u32, u32, u32)>, lv: Seq<u32>, id: u32) -> Seq<Seq<(u32, bool)>>
    decreases lv.len() - top_level(nodes, lv, id),
{
    if id == 1 {
        seq![Seq::empty()]
    } else if id == 0 || !nodes.dom().contains(id) {
        Seq::empty()
    } else {
        let t = nodes[id];
        if top_level(nodes, lv, id) < lv.len() && top_level(nodes, lv, t.1) > top_level(nodes, lv, id)
            && top_level(nodes, lv, t.2) > top_level(nodes, lv, id) {
            paths(nodes, lv, t.2).map_values(|p: Seq<(u32, bool)>| seq![(t.0, false)] + p) + paths(
                nodes,
                lv,
                t.1,
            ).map_values(|p: Seq<(u32, bool)>| seq![(t.0, true)] + p)
        } else {
            Seq::empty()
        }
    }
}

/// Dropping nodes that a live identifier does not reach leaves its paths as they were.
pub proof fn lemma_paths_submap(
    old_nodes: Map<u32, (u32, u32, u32)>,
    nodes: Map<u32, (u32, u32, u32)>,
    lv: Seq<u32>,
    id: u32,
)
    requires
        graph_wf(nodes, lv),
        live(nodes, id),
        forall|x: u32| #[trigger]
            nodes.dom().contains(x) ==> old_nodes.dom().contains(x) && old_nodes[x] == nodes[x],
    ensures
        paths(nodes, lv, id) == paths(old_nodes, lv, id),
        top_level(nodes, lv, id) == top_level(old_nodes, lv, id),
    decreases lv.len() - top_level(nodes, lv, id),
{
    if id != 0 && id != 1 {
        let t = nodes[id];
        assert(node_ok(nodes, lv, id));
        lemma_eval_node(nodes, lv, id, |y: u32| true);
        lemma_paths_submap(old_nodes, nodes, lv, t.1);
        lemma_paths_submap(old_nodes, nodes, lv, t.2);
    }
}

/// The assignment `a` gives each variable of `p` the value `p` reads.
pub open spec fn consistent(p: Seq<(u32, bool)>, a: spec_fn(u32) -> bool) -> bool {
    forall|i: int| 0 <= i < p.len() ==> a(#[trigger] p[i].0) == p[i].1
}

/// An assignment makes `id` true exactly when it agrees with one of its paths to `true`.
pub proof fn lemma_paths_eval(
    nodes: Map<u32, (u32, u32, u32)>,
    lv: Seq<u32>,
    id: u32,
    a: spec_fn(u32) -> bool,
)
    requires
        graph_wf(nodes, lv),
        live(nodes, id),
    ensures
        eval(nodes, lv, id, a) <==> exists|i: int|
            0 <= i < paths(nodes, lv, id).len() && consistent(#[trigger] paths(nodes, lv, id)[i], a),
    decreases lv.len() - top_level(nodes, lv, id),
{
    let ps = paths(nodes, lv, id);
    if id == 1 {
        assert(consistent(ps[0], a));
    } else if id == 0 {
    } else {
        let t = nodes[id];
        assert(node_ok(nodes, lv, id));
        lemma_eval_node(nodes, lv, id, a);
        lemma_paths_eval(nodes, lv, t.1, a);
        lemma_paths_eval(nodes, lv, t.2, a);
        let lo = paths(nodes, lv, t.2);
        let hi = paths(nodes, lv, t.1);
        let lo2 = lo.map_values(|p: Seq<(u32, bool)>| seq![(t.0, false)] + p);
        let hi2 = hi.map_values(|p: Seq<(u32, bool)>| seq![(t.0, true)] + p);
        assert(ps == lo2 + hi2);
        if eval(nodes, lv, id, a) {
            if a(t.0) {
                let i = choose|i: int| 0 <= i < hi.len() && consistent(#[trigger] hi[i], a);
                let q = hi2[i];
                assert(q == seq![(t.0, true)] + hi[i]);
                assert forall|k: int| 0 <= k < q.len() implies a(#[trigger] q[k].0) == q[k].1 by {
                    if k > 0 {
                        assert(q[k] == hi[i][k - 1]);
                    }
                }
                assert(ps[lo2.len() + i] == q);
            } else {
                let i = choose|i: int| 0 <= i < lo.len() && consistent(#[trigger] lo[i], a);
                let q = lo2[i];
                assert(q == seq![(t.0, false)] + lo[i]);
                assert forall|k: int| 0 <= k < q.len() implies a(#[trigger] q[k].0) == q[k].1 by {
                    if k > 0 {
                        assert(q[k] == lo[i][k - 1]);
                    }
                }
                assert(ps[i] == q);
            }
        } else {
            assert forall|i: int| 0 <= i < ps.len() implies !consistent(#[trigger] ps[i], a) by {
                if i < lo2.len() {
                    let q = lo2[i];
                    assert(q == seq![(t.0, false)] + lo[i]);
                    if consistent(q, a) {
                        assert(q[0].0 == t.0);
                        if !a(t.0) {
                            assert forall|k: int| 0 <= k < lo[i].len() implies a(
                                #[trigger] lo[i][k].0,
                            ) == lo[i][k].1 by {
                                assert(q[k + 1] == lo[i][k]);
                            }
                        }
                    }
                } else {
                    let j = i - lo2.len();
                    let q = hi2[j];
                    assert(ps[i] == q);
                    assert(q == seq![(t.0, true)] + hi[j]);
                    if consistent(q, a) {
                        assert(q[0].0 == t.0);
                        if a(t.0) {
                            assert forall|k: int| 0 <= k < hi[j].len() implies a(
                                #[trigger] hi[j][k].0,
                            ) == hi[j][k].1 by {
                                assert(q[k + 1] == hi[j][k]);
                            }
                        }
                    }
                }
            }
        }
    }
}

/// A path that `a` agrees with, after its first literal, leaves a tail that `a` agrees with.
proof fn lemma_consistent_tail(q: Seq<(u32, bool)>, head: (u32, bool), p: Seq<(u32, bool)>, a: spec_fn(u32) -> bool)
    requires
        q == seq![head] + p,
        consistent(q, a),
    ensures
        consistent(p, a),
        a(head.0) == head.1,
{
    assert(q[0] == head);
    assert forall|k: int| 0 <= k < p.len() implies a(#[trigger] p[k].0) == p[k].1 by {
        assert(q[k + 1] == p[k]);
    }
}

/// No assignment agrees with two different paths of `id`.
pub proof fn lemma_paths_disjoint(
    nodes: Map<u32, (u32, u32, u32)>,
    lv: Seq<u32>,
    id: u32,
    i: int,
    j: int,
    a: spec_fn(u32) -> bool,
)
    requires
        graph_wf(nodes, lv),
        live(nodes, id),
        0 <= i < j < paths(nodes, lv, id).len(),
    ensures
        !(consistent(paths(nodes, lv, id)[i], a) && consistent(paths(nodes, lv, id)[j], a)),
    decreases lv.len() - top_level(nodes, lv, id),
{
    let ps = paths(nodes, lv, id);
    if id != 1 && id != 0 {
        let t = nodes[id];
        assert(node_ok(nodes, lv, id));
        lemma_eval_node(nodes, lv, id, a);
        let lo = paths(nodes, lv, t.2);
        let hi = paths(nodes, lv, t.1);
        let lo2 = lo.map_values(|p: Seq<(u32, bool)>| seq![(t.0, false)] + p);
        let hi2 = hi.map_values(|p: Seq<(u32, bool)>| seq![(t.0, true)] + p);
        assert(ps == lo2 + hi2);
        if consistent(ps[i], a) && consistent(ps[j], a) {
            if j < lo2.len() {
                assert(ps[i] == seq![(t.0, false)] + lo[i]);
                assert(ps[j] == seq![(t.0, false)] + lo[j]);
                lemma_consistent_tail(ps[i], (t.0, false), lo[i], a);
                lemma_consistent_tail(ps[j], (t.0, false), lo[j], a);
                lemma_paths_disjoint(nodes, lv, t.2, i, j, a);
            } else if i >= lo2.len() {
                let (i2, j2) = (i - lo2.len(), j - lo2.len());
                assert(ps[i] == seq![(t.0, true)] + hi[i2]);
                assert(ps[j] == seq![(t.0, true)] + hi[j2]);
                lemma_consistent_tail(ps[i], (t.0, true), hi[i2], a);
                lemma_consistent_tail(ps[j], (t.0, true), hi[j2], a);
                lemma_paths_disjoint(nodes, lv, t.1, i2, j2, a);
            } else {
                let j2 = j - lo2.len();
                assert(ps[i] == seq![(t.0, false)] + lo[i]);
                assert(ps[j] == seq![(t.0, true)] + hi[j2]);
                lemma_consistent_tail(ps[i], (t.0, false), lo[i], a);
                lemma_consistent_tail(ps[j], (t.0, true), hi[j2], a);
            }
        }
    }
}

/// The literals are on variables of `lv`, in strictly increasing level order.
pub open spec fn sorted_in(lits: Seq<(u32, bool)>, lv: Seq<u32>) -> bool {
    &&& forall|i: int| 0 <= i < lits.len() ==> (#[trigger] lits[i]).0 < lv.len()
    &&& forall|i: int, j: int|
        0 <= i < j < lits.len() ==> lv[(#[trigger] lits[i]).0 as int] < lv[(#[trigger] lits[j]).0 as int]
}

/// The value `lits` gives to `v`, if any.
pub open spec fn lookup(lits: Seq<(u32, bool)>, v: u32) -> Option<bool> {
    if exists|i: int| 0 <= i < lits.len() && (#[trigger] lits[i]).0 == v {
        Some(lits[choose|i: int| 0 <= i < lits.len() && (#[trigger] lits[i]).0 == v].1)
    } else {
        None
    }
}

/// In sorted literals a variable occurs at most once, so `lookup` finds the literal at `i`.
proof fn lemma_lookup_at(lits: Seq<(u32, bool)>, lv: Seq<u32>, i: int)
    requires
        sorted_in(lits, lv),
        0 <= i < lits.len(),
    ensures
        lookup(lits, lits[i].0) == Some(lits[i].1),
{
    let w = lits[i].0;
    assert(0 <= i < lits.len() && lits[i].0 == w);
    let j = choose|j: int| 0 <= j < lits.len() && (#[trigger] lits[j]).0 == w;
    assert(j == i) by {
        if j < i {
            assert(lv[lits[j].0 as int] < lv[lits[i].0 as int]);
        } else if j > i {
            assert(lv[lits[i].0 as int] < lv[lits[j].0 as int]);
        }
    }
}

/// `k` splits `lits` into the literals below level `l` and those at `l` or below it.
pub open spec fn splits_at(lits: Seq<(u32, bool)>, lv: Seq<u32>, l: u32, k: int) -> bool {
    &&& 0 <= k <= lits.len()
    &&& forall|i: int| 0 <= i < k ==> lv[(#[trigger] lits[i]).0 as int] < l
    &&& forall|i: int| k <= i < lits.len() ==> lv[(#[trigger] lits[i]).0 as int] >= l
}

/// `lits` with the literal on `v` replaced, added or dropped according to `value`, where `k`
/// splits `lits` at the level of `v`.
pub open spec fn assigned(lits: Seq<(u32, bool)>, k: int, v: u32, value: Option<bool>) -> Seq<(u32, bool)> {
    let present = k < lits.len() && lits[k].0 == v;
    let rest = if present {
        lits.skip(k + 1)
    } else {
        lits.skip(k)
    };
    match value {
        Some(b) => lits.take(k).push((v, b)) + rest,
        None => lits.take(k) + rest,
    }
}

/// A partial assignment of the variables of a manager, sorted by level.
#[derive(Clone, PartialEq, Eq, Hash, Debug)]
pub struct Model {
    literals: Vec<(u32, bool)>,
    manager: u64,
}

impl View for Model {
    type V = Seq<(u32, bool)>;

    closed spec fn view(&self) -> Seq<(u32, bool)> {
        self.literals@
    }
}

impl Model {
    /// The tag of the manager whose variables the model assigns.
    pub closed spec fn tag(&self) -> u64 {
        self.manager
    }

    /// The empty assignment of the variables of the manager tagged `tag`.
    fn new(tag: u64) -> (r: Model)
        ensures
            r@ == Seq::<(u32, bool)>::empty(),
            r.tag() == tag,
    {
        Model { literals: Vec::new(), manager: tag }
    }

    /// The position of the first literal at the level of `var` or below it.
    fn position(&self, manager: &Manager, var: Var) -> (k: usize)
        requires
            manager.wf(),
            var.id() < manager.levels().len(),
            sorted_in(self@, manager.levels()),
        ensures
            splits_at(self@, manager.levels(), manager.levels()[var.id() as int], k as int),
    {
        let l = manager.inner.level(var.var.0);
        let mut lo: usize = 0;
        let mut hi: usize = self.literals.len();
        while lo < hi
            invariant
                manager.wf(),
                sorted_in(self@, manager.levels()),
                l == manager.levels()[var.id() as int],
                0 <= lo <= hi <= self@.len(),
                forall|i: int| 0 <= i < lo ==> manager.levels()[(#[trigger] self@[i]).0 as int] < l,
                forall|i: int|
                    hi <= i < self@.len() ==> manager.levels()[(#[trigger] self@[i]).0 as int] >= l,
            decreases hi - lo,
        {
            let mid = lo + (hi - lo) / 2;
            proof {
                assert(self@[mid as int].0 < manager.levels().len());
            }
            let lm = manager.inner.level(self.literals[mid].0);
            if lm < l {
                proof {
                    assert forall|i: int| 0 <= i <= mid implies manager.levels()[(#[trigger] self@[i]).0 as int]
                        < l by {
                        if i < mid {
                            assert(manager.levels()[self@[i].0 as int] < manager.levels()[self@[mid as int].0 as int]);
                        }
                    }
                }
                lo = mid + 1;
            } else {
                proof {
                    assert forall|i: int| mid <= i < self@.len() implies manager.levels()[(
                    #[trigger] self@[i]).0 as int] >= l by {
                        if i > mid {
                            assert(manager.levels()[self@[mid as int].0 as int] < manager.levels()[self@[i].0 as int]);
                        }
                    }
                }
                hi = mid;
            }
        }
        lo
    }

    /// The value this model gives to `var`, if any.
    pub fn get(&self, manager: &Manager, var: Var) -> (r: Option<bool>)
        requires
            manager.wf(),
            var.id() < manager.levels().len(),
            var.tag() == manager.tag(),
            self.tag() == manager.tag(),
            sorted_in(self@, manager.levels()),
        ensures
            r == lookup(self@, var.id()),
    {
        let k = self.position(manager, var);
        proof {
            manager.inner.order.lemma_wf();
            let lv = manager.levels();
            if exists|i: int| 0 <= i < self@.len() && (#[trigger] self@[i]).0 == var.id() {
                let i = choose|i: int| 0 <= i < self@.len() && (#[trigger] self@[i]).0 == var.id();
                assert(i == k) by {
                    if i < k {
                        assert(lv[self@[i].0 as int] < lv[var.id() as int]);
                    } else if i > k {
                        assert(lv[self@[k as int].0 as int] < lv[self@[i].0 as int]);
                    }
                }
            }
        }
        if k < self.literals.len() && self.literals[k].0 == var.var.0 {
            Some(self.literals[k].1)
        } else {
            None
        }
    }

    /// Give `var` the value `value`, or no value for `None`, keeping the literals sorted.
    pub fn set(&mut self, manager: &Manager, var: Var, value: Option<bool>)
        requires
            manager.wf(),
            var.id() < manager.levels().len(),
            var.tag() == manager.tag(),
            old(self).tag() == manager.tag(),
            sorted_in(old(self)@, manager.levels()),
        ensures
            final(self).tag() == old(self).tag(),
            sorted_in(final(self)@, manager.levels()),
            exists|k: int|
                splits_at(old(self)@, manager.levels(), manager.levels()[var.id() as int], k)
                    && final(self)@ == assigned(old(self)@, k, var.id(), value),
            lookup(final(self)@, var.id()) == value,
            forall|w: u32| w != var.id() ==> lookup(final(self)@, w) == lookup(old(self)@, w),
    {
        let k = self.position(manager, var);
        let ghost lits = self@;
        let ghost lv = manager.levels();
        let ghost v = var.id();
        proof {
            manager.inner.order.lemma_wf();
        }
        let present = k < self.literals.len() && self.literals[k].0 == var.var.0;
        match value {
            Some(b) => {
                if present {
                    self.literals.set(k, (var.var.0, b));
                } else {
                    self.literals.insert(k, (var.var.0, b));
                }
            },
            None => {
                if present {
                    self.literals.remove(k);
                }
            },
        }
        proof {
            let n = self@;
            assert(n =~= assigned(lits, k as int, v, value));
            if !present && k < lits.len() {
                assert(lv[lits[k as int].0 as int] != lv[v as int]);
            }
            assert(sorted_in(n, lv)) by {
                assert forall|i: int, j: int|
                    0 <= i < j < n.len() implies lv[(#[trigger] n[i]).0 as int] < lv[(
                #[trigger] n[j]).0 as int] by {
                    if i < k && j > k && present && value is None {
                        assert(n[j] == lits[j + 1]);
                    }
                }
            }
            let lk = k as int;
            if value is Some {
                assert(n[lk].0 == v);
            }
            assert forall|i: int| 0 <= i < n.len() && (#[trigger] n[i]).0 == v implies i == lk
                && value is Some by {
                if i < lk {
                    assert(n[i] == lits[i]);
                } else if i > lk || value is None {
                    assert(lv[n[i].0 as int] > lv[v as int] || n[i].0 != v) by {
                        let oi = if value is None && present {
                            i + 1
                        } else if value is None {
                            i
                        } else if present {
                            i
                        } else {
                            i - 1
                        };
                        assert(n[i] == lits[oi]);
                        if oi == lk {
                            assert(!present);
                        } else {
                            assert(lv[lits[lk].0 as int] < lv[lits[oi].0 as int]);
                        }
                    }
                }
            }
            let add: int = if value is Some { 1 } else { 0 };
            let del: int = if present { 1 } else { 0 };
            assert forall|w: u32| w != v implies lookup(n, w) == lookup(lits, w) by {
                if exists|i: int| 0 <= i < lits.len() && (#[trigger] lits[i]).0 == w {
                    let i = choose|i: int| 0 <= i < lits.len() && (#[trigger] lits[i]).0 == w;
                    let ni = if i < lk { i } else { i + add - del };
                    assert(n[ni] == lits[i]);
                    lemma_lookup_at(lits, lv, i);
                    lemma_lookup_at(n, lv, ni);
                } else {
                    if exists|j: int| 0 <= j < n.len() && (#[trigger] n[j]).0 == w {
                        let j = choose|j: int| 0 <= j < n.len() && (#[trigger] n[j]).0 == w;
                        if j >= lk && !(value is Some && j == lk) {
                            let oi = j - add + del;
                            assert(n[j] == lits[oi]);
                        } else if j < lk {
                            assert(n[j] == lits[j]);
                        }
                    }
                }
            }
        }
    }

    /// A copy of this model.
    fn copy(&self) -> (r: Model)
        ensures
            r@ == self@,
            r.tag() == self.tag(),
    {
        let mut literals: Vec<(u32, bool)> = Vec::new();
        let mut i: usize = 0;
        while i < self.literals.len()
            invariant
                i <= self@.len(),
                literals@ == self@.take(i as int),
            decreases self@.len() - i,
        {
            literals.push(self.literals[i]);
            i = i + 1;
            proof {
                assert(literals@ =~= self@.take(i as int));
            }
        }
        proof {
            assert(self@.take(self@.len() as int) =~= self@);
        }
        Model { literals, manager: self.manager }
    }

    /// Drop the literal on the deepest variable, if any.
    pub fn pop(&mut self)
        ensures
            final(self).tag() == old(self).tag(),
            final(self)@ == if old(self)@.len() > 0 {
                old(self)@.drop_last()
            } else {
                old(self)@
            },
    {
        self.literals.pop();
    }

    /// The literals of the model, from the first variable in the order to the last.
    pub fn lits(&self) -> (r: Vec<Lit>)
        ensures
            r@.len() == self@.len(),
            forall|i: int|
                0 <= i < self@.len() ==> (#[trigger] r@[i]).spec_var().id() == self@[i].0
                    && r@[i].spec_value() == self@[i].1 && r@[i].spec_var().tag() == self.tag(),
    {
        let mut r: Vec<Lit> = Vec::new();
        let mut i: usize = 0;
        while i < self.literals.len()
            invariant
                i <= self@.len(),
                r@.len() == i,
                forall|j: int|
                    0 <= j < i ==> (#[trigger] r@[j]).spec_var().id() == self@[j].0
                        && r@[j].spec_value() == self@[j].1 && r@[j].spec_var().tag() == self.tag(),
            decreases self@.len() - i,
        {
            let (v, b) = self.literals[i];
            let var = Var { var: VarID(v), manager: self.manager };
            if b {
                r.push(Lit::Positive(var));
            } else {
                r.push(Lit::Negative(var));
            }
            i = i + 1;
        }
        r
    }
}

/// How far the walk has gone through a node.
#[derive(Clone, Copy, PartialEq, Eq, Structural, Hash, Debug)]
pub enum State {
    /// The node has just been reached.
    Enter,
    /// The low branch is being walked.
    LowVisited,
    /// The high branch is being walked.
    HighVisited,
}

/// A node on the path being walked, and how far the walk has gone through it.
#[derive(Clone, Copy, PartialEq, Eq, Structural, Hash, Debug)]
pub struct Frame {
    pub slot: u32,
    pub state: State,
}

/// The models still to come from a frame, each behind `prefix`.
pub open spec fn pending(
    nodes: Map<u32, (u32, u32, u32)>,
    lv: Seq<u32>,
    f: Frame,
    prefix: Seq<(u32, bool)>,
) -> Seq<Seq<(u32, bool)>> {
    match f.state {
        State::Enter => paths(nodes, lv, f.slot).map_values(|p: Seq<(u32, bool)>| prefix + p),
        State::LowVisited => paths(nodes, lv, nodes[f.slot].1).map_values(
            |p: Seq<(u32, bool)>| prefix.push((nodes[f.slot].0, true)) + p,
        ),
        State::HighVisited => Seq::empty(),
    }
}

/// The models still to come from a stack of frames, the top frame first; each frame stands
/// behind the literals of the frames below it.
pub open spec fn remaining_of(
    nodes: Map<u32, (u32, u32, u32)>,
    lv: Seq<u32>,
    stack: Seq<Frame>,
    model: Seq<(u32, bool)>,
) -> Seq<Seq<(u32, bool)>>
    decreases stack.len(),
{
    if stack.len() == 0 {
        Seq::empty()
    } else {
        pending(nodes, lv, stack.last(), model.take(stack.len() - 1)) + remaining_of(
            nodes,
            lv,
            stack.drop_last(),
            model,
        )
    }
}

/// The number of steps the walk takes through `id`.
pub open spec fn cost(nodes: Map<u32, (u32, u32, u32)>, lv: Seq<u32>, id: u32) -> nat
    decreases lv.len() - top_level(nodes, lv, id),
{
    if is_terminal(id) || !nodes.dom().contains(id) {
        1
    } else {
        let t = nodes[id];
        if top_level(nodes, lv, id) < lv.len() && top_level(nodes, lv, t.1) > top_level(nodes, lv, id)
            && top_level(nodes, lv, t.2) > top_level(nodes, lv, id) {
            cost(nodes, lv, t.1) + cost(nodes, lv, t.2) + 3
        } else {
            1
        }
    }
}

/// The number of steps left for a frame.
pub open spec fn frame_cost(nodes: Map<u32, (u32, u32, u32)>, lv: Seq<u32>, f: Frame) -> nat {
    match f.state {
        State::Enter => cost(nodes, lv, f.slot),
        State::LowVisited => cost(nodes, lv, nodes[f.slot].1) + 2,
        State::HighVisited => 1,
    }
}

/// The number of steps left for a stack of frames.
pub open spec fn stack_cost(nodes: Map<u32, (u32, u32, u32)>, lv: Seq<u32>, stack: Seq<Frame>) -> nat
    decreases stack.len(),
{
    if stack.len() == 0 {
        0
    } else {
        frame_cost(nodes, lv, stack.last()) + stack_cost(nodes, lv, stack.drop_last())
    }
}

/// The stack is a path from the root: each frame below the top has left its entry state and
/// the next frame is the branch it is walking; the model holds one literal per frame that has
/// left its entry state.
pub open spec fn stack_ok(
    nodes: Map<u32, (u32, u32, u32)>,
    lv: Seq<u32>,
    stack: Seq<Frame>,
    model: Seq<(u32, bool)>,
) -> bool {
    &&& graph_wf(nodes, lv)
    &&& forall|i: int| 0 <= i < stack.len() ==> live(nodes, (#[trigger] stack[i]).slot)
    &&& forall|i: int|
        0 <= i < stack.len() && (#[trigger] stack[i]).state != State::Enter ==> !is_terminal(
            stack[i].slot,
        ) && nodes.dom().contains(stack[i].slot)
    &&& forall|i: int| 0 <= i < stack.len() - 1 ==> (#[trigger] stack[i]).state != State::Enter
    &&& forall|i: int|
        0 <= i < stack.len() - 1 ==> #[trigger] stack[i + 1].slot == if stack[i].state
            == State::LowVisited {
            nodes[stack[i].slot].2
        } else {
            nodes[stack[i].slot].1
        }
    &&& model.len() == if stack.len() == 0 {
        0
    } else if stack.last().state == State::Enter {
        stack.len() - 1
    } else {
        stack.len() as int
    }
    &&& forall|i: int|
        0 <= i < model.len() ==> #[trigger] model[i] == (
            nodes[stack[i].slot].0,
            stack[i].state == State::HighVisited,
        )
    &&& sorted_in(model, lv)
    &&& stack.len() > 0 && stack.last().state == State::Enter ==> forall|i: int|
        0 <= i < model.len() ==> lv[(#[trigger] model[i]).0 as int] < top_level(
            nodes,
            lv,
            stack.last().slot,
        )
}

/// The models still to come depend on the model only through the literals below the top frame.
proof fn lemma_remaining_prefix(
    nodes: Map<u32, (u32, u32, u32)>,
    lv: Seq<u32>,
    stack: Seq<Frame>,
    m1: Seq<(u32, bool)>,
    m2: Seq<(u32, bool)>,
)
    requires
        forall|j: int| 0 <= j < stack.len() ==> #[trigger] m1.take(j) == m2.take(j),
    ensures
        remaining_of(nodes, lv, stack, m1) == remaining_of(nodes, lv, stack, m2),
    decreases stack.len(),
{
    if stack.len() > 0 {
        assert(m1.take(stack.len() - 1) == m2.take(stack.len() - 1));
        lemma_remaining_prefix(nodes, lv, stack.drop_last(), m1, m2);
    }
}

/// The models of a node behind `prefix`: those of its low branch behind the negative literal,
/// then those of its high branch behind the positive one.
proof fn lemma_pending_split(
    nodes: Map<u32, (u32, u32, u32)>,
    lv: Seq<u32>,
    id: u32,
    prefix: Seq<(u32, bool)>,
)
    requires
        graph_wf(nodes, lv),
        !is_terminal(id),
        nodes.dom().contains(id),
    ensures
        pending(nodes, lv, Frame { slot: id, state: State::Enter }, prefix) == pending(
            nodes,
            lv,
            Frame { slot: nodes[id].2, state: State::Enter },
            prefix.push((nodes[id].0, false)),
        ) + pending(nodes, lv, Frame { slot: id, state: State::LowVisited }, prefix),
        cost(nodes, lv, id) == cost(nodes, lv, nodes[id].2) + cost(nodes, lv, nodes[id].1) + 3,
{
    let t = nodes[id];
    assert(node_ok(nodes, lv, id));
    lemma_eval_node(nodes, lv, id, |v: u32| true);
    let lo = paths(nodes, lv, t.2);
    let hi = paths(nodes, lv, t.1);
    let lo2 = lo.map_values(|p: Seq<(u32, bool)>| seq![(t.0, false)] + p);
    let hi2 = hi.map_values(|p: Seq<(u32, bool)>| seq![(t.0, true)] + p);
    assert(paths(nodes, lv, id) == lo2 + hi2);
    let whole = pending(nodes, lv, Frame { slot: id, state: State::Enter }, prefix);
    let left = pending(nodes, lv, Frame { slot: t.2, state: State::Enter }, prefix.push((t.0, false)));
    let right = pending(nodes, lv, Frame { slot: id, state: State::LowVisited }, prefix);
    assert forall|i: int| 0 <= i < whole.len() implies whole[i] == (left + right)[i] by {
        if i < lo.len() {
            assert(prefix + (seq![(t.0, false)] + lo[i]) =~= prefix.push((t.0, false)) + lo[i]);
        } else {
            let j = i - lo.len();
            assert(prefix + (seq![(t.0, true)] + hi[j]) =~= prefix.push((t.0, true)) + hi[j]);
        }
    }
    assert(whole =~= left + right);
}

/// The models of a diagram, produced one at a time by a depth-first walk that takes the low
/// branch of each node before its high branch.
pub struct ModelIterator {
    stack: Vec<Frame>,
    model: Model,
    nodes: Ghost<Map<u32, (u32, u32, u32)>>,
    levels: Ghost<Seq<u32>>,
}

impl ModelIterator {
    /// The models still to come, in order.
    pub closed spec fn remaining(&self) -> Seq<Seq<(u32, bool)>> {
        remaining_of(self.nodes@, self.levels@, self.stack@, self.model@)
    }

    /// The walk can go on in `manager`: its nodes are still stored there, under the same order.
    pub closed spec fn valid_for(&self, manager: &Manager) -> bool {
        &&& manager.wf()
        &&& self.nodes@.submap_of(manager.inner.graph())
        &&& self.levels@ == manager.levels()
        &&& self.model.tag() == manager.tag()
        &&& stack_ok(self.nodes@, self.levels@, self.stack@, self.model@)
    }

    /// The walk over the models of `root`.
    pub fn new(manager: &Manager, root: BDD) -> (r: ModelIterator)
        requires
            manager.wf(),
            manager.valid(root),
        ensures
            r.valid_for(manager),
            r.remaining() == manager.paths(root),
    {
        let mut stack: Vec<Frame> = Vec::new();
        stack.push(Frame { slot: root.id.0, state: State::Enter });
        let r = ModelIterator {
            stack,
            model: Model::new(manager.tag),
            nodes: Ghost(manager.inner.graph()),
            levels: Ghost(manager.inner.levels()),
        };
        proof {
            let ps = paths(manager.inner.graph(), manager.inner.levels(), root.id.0);
            let pend = pending(r.nodes@, r.levels@, r.stack@.last(), r.model@.take(0));
            assert forall|i: int| 0 <= i < ps.len() implies pend[i] == ps[i] by {
                assert(Seq::<(u32, bool)>::empty() + ps[i] =~= ps[i]);
            }
            assert(pend =~= ps);
            assert(r.stack@.drop_last().len() == 0);
            assert(remaining_of(r.nodes@, r.levels@, r.stack@.drop_last(), r.model@) =~= Seq::<
                Seq<(u32, bool)>,
            >::empty());
            assert(r.remaining() =~= ps);
            lemma_paths_is(*manager, root);
        }
        r
    }

    /// One step of the walk; `false` when it stands on a model, or is over.
    fn advance(&mut self, manager: &Manager) -> (go_on: bool)
        requires
            old(self).valid_for(manager),
        ensures
            final(self).valid_for(manager),
            final(self).nodes == old(self).nodes,
            final(self).levels == old(self).levels,
            final(self).remaining() == old(self).remaining(),
            go_on ==> stack_cost(final(self).nodes@, final(self).levels@, final(self).stack@)
                < stack_cost(old(self).nodes@, old(self).levels@, old(self).stack@),
            !go_on ==> final(self).stack@ == old(self).stack@ && final(self).model@ == old(self).model@
                && (final(self).stack@.len() == 0 || final(self).stack@.last() == (Frame {
                slot: 1,
                state: State::Enter,
            })),
    {
        let ghost nodes = self.nodes@;
        let ghost lv = self.levels@;
        let ghost st = self.stack@;
        let ghost md = self.model@;
        let n = self.stack.len();
        if n == 0 {
            return false;
        }
        let top = self.stack[n - 1];
        proof {
            assert(live(nodes, st[n - 1].slot));
            assert(st.drop_last() =~= st.take(n - 1));
        }
        if top.slot == 1 {
            proof {
                assert(top.state == State::Enter);
            }
            return false;
        }
        if top.slot == 0 {
            self.stack.pop();
            proof {
                assert(self.stack@ == st.drop_last());
                assert(pending(nodes, lv, top, md.take(n - 1)) =~= Seq::<Seq<(u32, bool)>>::empty());
                assert(remaining_of(nodes, lv, st, md) =~= remaining_of(nodes, lv, st.drop_last(), md));
            }
            return true;
        }
        proof {
            assert(nodes.dom().contains(top.slot));
            assert(node_ok(nodes, lv, top.slot));
            assert(manager.inner.graph().dom().contains(top.slot));
            lemma_eval_node(nodes, lv, top.slot, |v: u32| true);
        }
        let t = manager.inner.node(top.slot);
        let var = Var { var: VarID(t.0), manager: manager.tag };
        proof {
            assert(t == nodes[top.slot]);
        }
        match top.state {
            State::Enter => {
                self.model.set(manager, var, Some(false));
                self.stack.set(n - 1, Frame { slot: top.slot, state: State::LowVisited });
                self.stack.push(Frame { slot: t.2, state: State::Enter });
                proof {
                    lemma_entered(nodes, lv, st, md, self.stack@, self.model@, t);
                }
            },
            State::LowVisited => {
                self.model.set(manager, var, Some(true));
                self.stack.set(n - 1, Frame { slot: top.slot, state: State::HighVisited });
                self.stack.push(Frame { slot: t.1, state: State::Enter });
                proof {
                    lemma_turned(nodes, lv, st, md, self.stack@, self.model@, t);
                }
            },
            State::HighVisited => {
                self.model.set(manager, var, None);
                self.stack.pop();
                proof {
                    lemma_left(nodes, lv, st, md, self.stack@, self.model@, t);
                }
            },
        }
        true
    }

    /// The next model, if any.
    pub fn next(&mut self, manager: &Manager) -> (r: Option<Model>)
        requires
            old(self).valid_for(manager),
        ensures
            final(self).valid_for(manager),
            old(self).remaining().len() == 0 ==> r is None && final(self).remaining().len() == 0,
            old(self).remaining().len() > 0 ==> (r matches Some(m) && m@ == old(self).remaining()[0]
                && final(self).remaining() == old(self).remaining().drop_first()),
            r matches Some(m) ==> sorted_in(m@, manager.levels()) && m.tag() == manager.tag(),
    {
        loop
            invariant
                self.valid_for(manager),
                self.nodes == old(self).nodes,
                self.levels == old(self).levels,
                self.remaining() == old(self).remaining(),
            ensures
                self.valid_for(manager),
                self.nodes == old(self).nodes,
                self.levels == old(self).levels,
                self.remaining() == old(self).remaining(),
                self.stack@.len() == 0 || self.stack@.last() == (Frame { slot: 1, state: State::Enter }),
            decreases stack_cost(self.nodes@, self.levels@, self.stack@),
        {
            if !self.advance(manager) {
                break ;
            }
        }
        if self.stack.len() == 0 {
            return None;
        }
        let ghost st = self.stack@;
        let ghost md = self.model@;
        self.stack.pop();
        proof {
            lemma_yielded(self.nodes@, self.levels@, st, md);
        }
        Some(self.model.copy())
    }
}

/// Entering a node: the walk records the negative literal and goes down the low branch.
/// Entering a node keeps the stack a path from the root, with its literals.
proof fn lemma_entered_path(
    nodes: Map<u32, (u32, u32, u32)>,
    lv: Seq<u32>,
    st: Seq<Frame>,
    md: Seq<(u32, bool)>,
    st2: Seq<Frame>,
    md2: Seq<(u32, bool)>,
    t: (u32, u32, u32),
)
    requires
        stack_ok(nodes, lv, st, md),
        st.len() > 0,
        st.last().state == State::Enter,
        !is_terminal(st.last().slot),
        nodes.dom().contains(st.last().slot),
        t == nodes[st.last().slot],
        sorted_in(md2, lv),
        md2 == md.push((t.0, false)),
        md.len() == st.len() - 1,
        st2 == st.update(st.len() - 1, Frame { slot: st.last().slot, state: State::LowVisited }).push(
            Frame { slot: t.2, state: State::Enter },
        ),
    ensures
        stack_ok(nodes, lv, st2, md2),
{
    let n = st.len();
    let s = st.last().slot;
    assert(node_ok(nodes, lv, s));
    lemma_eval_node(nodes, lv, s, |v: u32| true);
    assert forall|i: int| 0 <= i < st2.len() - 1 implies #[trigger] st2[i + 1].slot == if st2[i].state
        == State::LowVisited {
        nodes[st2[i].slot].2
    } else {
        nodes[st2[i].slot].1
    } by {
        if i < n - 1 {
            assert(st2[i] == st[i]);
            assert(st2[i + 1] == st[i + 1] || i + 1 == n - 1);
        }
    }
    assert forall|i: int| 0 <= i < md2.len() implies #[trigger] md2[i] == (
        nodes[st2[i].slot].0,
        st2[i].state == State::HighVisited,
    ) by {
        if i < n - 1 {
            assert(md2[i] == md[i]);
            assert(st2[i] == st[i]);
        }
    }
    assert forall|i: int| 0 <= i < md2.len() implies lv[(#[trigger] md2[i]).0 as int] < top_level(
        nodes,
        lv,
        st2.last().slot,
    ) by {
        if i < n - 1 {
            assert(md2[i] == md[i]);
        }
    }
    assert forall|i: int| 0 <= i < st2.len() implies live(nodes, (#[trigger] st2[i]).slot) by {
        if i < n - 1 {
            assert(st2[i] == st[i]);
        }
    }
    assert forall|i: int|
        0 <= i < st2.len() && (#[trigger] st2[i]).state != State::Enter implies !is_terminal(
        st2[i].slot,
    ) && nodes.dom().contains(st2[i].slot) by {
        if i < n - 1 {
            assert(st2[i] == st[i]);
        }
    }
    assert forall|i: int| 0 <= i < st2.len() - 1 implies (#[trigger] st2[i]).state != State::Enter by {
        if i < n - 1 {
            assert(st2[i] == st[i]);
        }
    }
}

#[verifier::rlimit(40)]
proof fn lemma_entered(
    nodes: Map<u32, (u32, u32, u32)>,
    lv: Seq<u32>,
    st: Seq<Frame>,
    md: Seq<(u32, bool)>,
    st2: Seq<Frame>,
    md2: Seq<(u32, bool)>,
    t: (u32, u32, u32),
)
    requires
        stack_ok(nodes, lv, st, md),
        st.len() > 0,
        st.last().state == State::Enter,
        !is_terminal(st.last().slot),
        nodes.dom().contains(st.last().slot),
        t == nodes[st.last().slot],
        sorted_in(md2, lv),
        exists|k: int| splits_at(md, lv, lv[t.0 as int], k) && md2 == assigned(md, k, t.0, Some(false)),
        st2 == st.update(st.len() - 1, Frame { slot: st.last().slot, state: State::LowVisited }).push(
            Frame { slot: t.2, state: State::Enter },
        ),
    ensures
        stack_ok(nodes, lv, st2, md2),
        remaining_of(nodes, lv, st2, md2) == remaining_of(nodes, lv, st, md),
        stack_cost(nodes, lv, st2) < stack_cost(nodes, lv, st),
{
    let n = st.len();
    let s = st.last().slot;
    assert(node_ok(nodes, lv, s));
    lemma_eval_node(nodes, lv, s, |v: u32| true);
    let k = choose|k: int| splits_at(md, lv, lv[t.0 as int], k) && md2 == assigned(md, k, t.0, Some(false));
    assert(k == md.len()) by {
        if k < md.len() {
            assert(lv[md[k].0 as int] < top_level(nodes, lv, s));
        }
    }
    assert(md2 =~= md.push((t.0, false)));
    assert(md.len() == n - 1);
    let low = Frame { slot: t.2, state: State::Enter };
    let mid = Frame { slot: s, state: State::LowVisited };
    assert(st2.last() == low);
    assert(st2.drop_last() =~= st.drop_last().push(mid));
    assert(st2.drop_last().drop_last() =~= st.drop_last());
    assert(st2.drop_last().last() == mid);
    lemma_entered_path(nodes, lv, st, md, st2, md2, t);
    // The models to come.
    lemma_pending_split(nodes, lv, s, md);
    assert(md.take(n - 1) =~= md);
    assert(md2.take(n as int) =~= md2);
    assert(md2.take(n - 1) =~= md);
    assert forall|j: int| 0 <= j < st.drop_last().len() implies #[trigger] md2.take(j) == md.take(j) by {
        assert(md2.take(j) =~= md.take(j));
    }
    lemma_remaining_prefix(nodes, lv, st.drop_last(), md2, md);
    let rest = remaining_of(nodes, lv, st.drop_last(), md);
    let l_part = pending(nodes, lv, low, md2.take(n as int));
    let m_part = pending(nodes, lv, mid, md2.take(n - 1));
    assert(remaining_of(nodes, lv, st2.drop_last(), md2) == m_part + remaining_of(
        nodes,
        lv,
        st2.drop_last().drop_last(),
        md2,
    ));
    assert(remaining_of(nodes, lv, st2.drop_last(), md2) == m_part + rest);
    assert(remaining_of(nodes, lv, st2, md2) == l_part + (m_part + rest));
    assert(remaining_of(nodes, lv, st, md) == pending(nodes, lv, st.last(), md.take(n - 1)) + rest);
    assert(pending(nodes, lv, st.last(), md.take(n - 1)) == l_part + m_part);
    assert(remaining_of(nodes, lv, st2, md2) =~= remaining_of(nodes, lv, st, md));
    assert(stack_cost(nodes, lv, st2) == cost(nodes, lv, t.2) + stack_cost(nodes, lv, st2.drop_last()));
    assert(stack_cost(nodes, lv, st2.drop_last()) == cost(nodes, lv, t.1) + 2 + stack_cost(
        nodes,
        lv,
        st.drop_last(),
    ));
}

/// Turning at a node: the walk flips its literal to positive and goes down the high branch.
#[verifier::rlimit(40)]
proof fn lemma_turned(
    nodes: Map<u32, (u32, u32, u32)>,
    lv: Seq<u32>,
    st: Seq<Frame>,
    md: Seq<(u32, bool)>,
    st2: Seq<Frame>,
    md2: Seq<(u32, bool)>,
    t: (u32, u32, u32),
)
    requires
        stack_ok(nodes, lv, st, md),
        st.len() > 0,
        st.last().state == State::LowVisited,
        t == nodes[st.last().slot],
        sorted_in(md2, lv),
        exists|k: int| splits_at(md, lv, lv[t.0 as int], k) && md2 == assigned(md, k, t.0, Some(true)),
        st2 == st.update(st.len() - 1, Frame { slot: st.last().slot, state: State::HighVisited }).push(
            Frame { slot: t.1, state: State::Enter },
        ),
    ensures
        stack_ok(nodes, lv, st2, md2),
        remaining_of(nodes, lv, st2, md2) == remaining_of(nodes, lv, st, md),
        stack_cost(nodes, lv, st2) < stack_cost(nodes, lv, st),
{
    let n = st.len();
    let s = st.last().slot;
    assert(nodes.dom().contains(s));
    assert(node_ok(nodes, lv, s));
    lemma_eval_node(nodes, lv, s, |v: u32| true);
    assert(md.len() == n);
    assert(md[n - 1] == (t.0, false));
    let k = choose|k: int| splits_at(md, lv, lv[t.0 as int], k) && md2 == assigned(md, k, t.0, Some(true));
    assert(k == n - 1) by {
        if k < n - 1 {
            assert(lv[md[k].0 as int] < lv[md[n - 1].0 as int]);
        }
        if k == n {
            assert(lv[md[n - 1].0 as int] < lv[t.0 as int]);
        }
    }
    assert(md2 =~= md.take(n - 1).push((t.0, true)));
    let high = Frame { slot: t.1, state: State::Enter };
    let mid = Frame { slot: s, state: State::HighVisited };
    assert(st2.last() == high);
    assert(st2.drop_last() =~= st.drop_last().push(mid));
    assert(st2.drop_last().drop_last() =~= st.drop_last());
    assert(st2.drop_last().last() == mid);
    assert(stack_ok(nodes, lv, st2, md2)) by {
        assert forall|i: int| 0 <= i < st2.len() - 1 implies #[trigger] st2[i + 1].slot == if st2[i].state
            == State::LowVisited {
            nodes[st2[i].slot].2
        } else {
            nodes[st2[i].slot].1
        } by {
            if i < n - 1 {
                assert(st2[i] == st[i]);
                assert(st2[i + 1] == st[i + 1] || i + 1 == n - 1);
            }
        }
        assert forall|i: int| 0 <= i < md2.len() implies #[trigger] md2[i] == (
            nodes[st2[i].slot].0,
            st2[i].state == State::HighVisited,
        ) by {
            if i < n - 1 {
                assert(md2[i] == md[i]);
                assert(st2[i] == st[i]);
            }
        }
        assert forall|i: int| 0 <= i < md2.len() implies lv[(#[trigger] md2[i]).0 as int] < top_level(
            nodes,
            lv,
            st2.last().slot,
        ) by {
            if i < n - 1 {
                assert(md2[i] == md[i]);
                assert(lv[md[i].0 as int] < lv[md[n - 1].0 as int]);
            }
        }
        assert forall|i: int| 0 <= i < st2.len() implies live(nodes, (#[trigger] st2[i]).slot) by {
            if i < n - 1 {
                assert(st2[i] == st[i]);
            }
        }
        assert forall|i: int|
            0 <= i < st2.len() && (#[trigger] st2[i]).state != State::Enter implies !is_terminal(
            st2[i].slot,
        ) && nodes.dom().contains(st2[i].slot) by {
            if i < n - 1 {
                assert(st2[i] == st[i]);
            }
        }
        assert forall|i: int| 0 <= i < st2.len() - 1 implies (#[trigger] st2[i]).state != State::Enter by {
            if i < n - 1 {
                assert(st2[i] == st[i]);
            }
        }
    }
    assert(md2.take(n as int) =~= md2);
    assert(md2.take(n - 1) =~= md.take(n - 1));
    assert(pending(nodes, lv, high, md2) =~= pending(nodes, lv, st.last(), md.take(n - 1)));
    assert(pending(nodes, lv, mid, md2.take(n - 1)) =~= Seq::<Seq<(u32, bool)>>::empty());
    assert forall|j: int| 0 <= j < st.drop_last().len() implies #[trigger] md2.take(j) == md.take(j) by {
        assert(md2.take(j) =~= md.take(j));
    }
    lemma_remaining_prefix(nodes, lv, st.drop_last(), md2, md);
    let rest = remaining_of(nodes, lv, st.drop_last(), md);
    let h_part = pending(nodes, lv, high, md2.take(n as int));
    let m_part = pending(nodes, lv, mid, md2.take(n - 1));
    assert(remaining_of(nodes, lv, st2.drop_last(), md2) == m_part + remaining_of(
        nodes,
        lv,
        st2.drop_last().drop_last(),
        md2,
    ));
    assert(remaining_of(nodes, lv, st2.drop_last(), md2) =~= rest);
    assert(remaining_of(nodes, lv, st2, md2) == h_part + rest);
    assert(remaining_of(nodes, lv, st, md) == pending(nodes, lv, st.last(), md.take(n - 1)) + rest);
    assert(remaining_of(nodes, lv, st2, md2) =~= remaining_of(nodes, lv, st, md));
    assert(stack_cost(nodes, lv, st2) == cost(nodes, lv, t.1) + stack_cost(nodes, lv, st2.drop_last()));
    assert(stack_cost(nodes, lv, st2.drop_last()) == 1 + stack_cost(nodes, lv, st.drop_last()));
}

/// Leaving a node: the walk forgets its literal and goes back up.
#[verifier::rlimit(40)]
proof fn lemma_left(
    nodes: Map<u32, (u32, u32, u32)>,
    lv: Seq<u32>,
    st: Seq<Frame>,
    md: Seq<(u32, bool)>,
    st2: Seq<Frame>,
    md2: Seq<(u32, bool)>,
    t: (u32, u32, u32),
)
    requires
        stack_ok(nodes, lv, st, md),
        st.len() > 0,
        st.last().state == State::HighVisited,
        t == nodes[st.last().slot],
        sorted_in(md2, lv),
        exists|k: int| splits_at(md, lv, lv[t.0 as int], k) && md2 == assigned(md, k, t.0, None),
        st2 == st.drop_last(),
    ensures
        stack_ok(nodes, lv, st2, md2),
        remaining_of(nodes, lv, st2, md2) == remaining_of(nodes, lv, st, md),
        stack_cost(nodes, lv, st2) < stack_cost(nodes, lv, st),
{
    let n = st.len();
    assert(md.len() == n);
    assert(md[n - 1] == (t.0, true));
    let k = choose|k: int| splits_at(md, lv, lv[t.0 as int], k) && md2 == assigned(md, k, t.0, None);
    assert(k == n - 1) by {
        if k < n - 1 {
            assert(lv[md[k].0 as int] < lv[md[n - 1].0 as int]);
        }
        if k == n {
            assert(lv[md[n - 1].0 as int] < lv[t.0 as int]);
        }
    }
    assert(md2 =~= md.take(n - 1));
    assert(stack_ok(nodes, lv, st2, md2)) by {
        assert forall|i: int| 0 <= i < md2.len() implies #[trigger] md2[i] == (
            nodes[st2[i].slot].0,
            st2[i].state == State::HighVisited,
        ) by {
            assert(md2[i] == md[i]);
            assert(st2[i] == st[i]);
        }
        assert forall|i: int| 0 <= i < st2.len() - 1 implies #[trigger] st2[i + 1].slot == if st2[i].state
            == State::LowVisited {
            nodes[st2[i].slot].2
        } else {
            nodes[st2[i].slot].1
        } by {
            assert(st2[i] == st[i]);
            assert(st2[i + 1] == st[i + 1]);
        }
        assert forall|i: int| 0 <= i < st2.len() implies live(nodes, (#[trigger] st2[i]).slot) by {
            assert(st2[i] == st[i]);
        }
        assert forall|i: int|
            0 <= i < st2.len() && (#[trigger] st2[i]).state != State::Enter implies !is_terminal(
            st2[i].slot,
        ) && nodes.dom().contains(st2[i].slot) by {
            assert(st2[i] == st[i]);
        }
        assert forall|i: int| 0 <= i < st2.len() - 1 implies (#[trigger] st2[i]).state != State::Enter by {
            assert(st2[i] == st[i]);
        }
        if st2.len() > 0 {
            assert(st2.last() == st[n - 2]);
        }
    }
    assert forall|j: int| 0 <= j < st2.len() implies #[trigger] md2.take(j) == md.take(j) by {
        assert(md2.take(j) =~= md.take(j));
    }
    lemma_remaining_prefix(nodes, lv, st2, md2, md);
    let pend = pending(nodes, lv, st.last(), md.take(n - 1));
    assert(pend =~= Seq::<Seq<(u32, bool)>>::empty());
    assert(remaining_of(nodes, lv, st, md) == pend + remaining_of(nodes, lv, st2, md));
    assert(pend + remaining_of(nodes, lv, st2, md) =~= remaining_of(nodes, lv, st2, md));
}

/// Standing on the `true` terminal: the model is the first of those to come, and leaving the
/// terminal drops it from them.
proof fn lemma_yielded(
    nodes: Map<u32, (u32, u32, u32)>,
    lv: Seq<u32>,
    st: Seq<Frame>,
    md: Seq<(u32, bool)>,
)
    requires
        stack_ok(nodes, lv, st, md),
        st.len() > 0,
        st.last() == (Frame { slot: 1, state: State::Enter }),
    ensures
        stack_ok(nodes, lv, st.drop_last(), md),
        remaining_of(nodes, lv, st, md).len() > 0,
        remaining_of(nodes, lv, st, md)[0] == md,
        remaining_of(nodes, lv, st.drop_last(), md) == remaining_of(nodes, lv, st, md).drop_first(),
{
    let n = st.len();
    let st2 = st.drop_last();
    assert(md.len() == n - 1);
    assert(md.take(n - 1) =~= md);
    let pend = pending(nodes, lv, st.last(), md);
    assert(paths(nodes, lv, 1) == seq![Seq::<(u32, bool)>::empty()]);
    assert(pend.len() == 1);
    assert(pend[0] =~= md);
    assert(stack_ok(nodes, lv, st2, md)) by {
        assert forall|i: int| 0 <= i < md.len() implies #[trigger] md[i] == (
            nodes[st2[i].slot].0,
            st2[i].state == State::HighVisited,
        ) by {
            assert(st2[i] == st[i]);
        }
        assert forall|i: int| 0 <= i < st2.len() - 1 implies #[trigger] st2[i + 1].slot == if st2[i].state
            == State::LowVisited {
            nodes[st2[i].slot].2
        } else {
            nodes[st2[i].slot].1
        } by {
            assert(st2[i] == st[i]);
            assert(st2[i + 1] == st[i + 1]);
        }
        assert forall|i: int| 0 <= i < st2.len() implies live(nodes, (#[trigger] st2[i]).slot) by {
            assert(st2[i] == st[i]);
        }
        assert forall|i: int|
            0 <= i < st2.len() && (#[trigger] st2[i]).state != State::Enter implies !is_terminal(
            st2[i].slot,
        ) && nodes.dom().contains(st2[i].slot) by {
            assert(st2[i] == st[i]);
        }
        assert forall|i: int| 0 <= i < st2.len() - 1 implies (#[trigger] st2[i]).state != State::Enter by {
            assert(st2[i] == st[i]);
        }
        if st2.len() > 0 {
            assert(st2.last() == st[n - 2]);
        }
    }
    assert(remaining_of(nodes, lv, st, md) == pend + remaining_of(nodes, lv, st2, md));
    assert((pend + remaining_of(nodes, lv, st2, md)).drop_first() =~= remaining_of(nodes, lv, st2, md));
}

/// A walk stays valid while its manager only gains nodes, such as through the Boolean
/// operations, and its models to come do not change.
pub proof fn lemma_walk_survives(it: ModelIterator, before: Manager, after: Manager)
    requires
        it.valid_for(&before),
        after.wf(),
        after.extends(before),
    ensures
        it.valid_for(&after),
{
    lemma_extends_is(before, after);
    vstd::map_lib::lemma_submap_of_trans(it.nodes@, before.inner.graph(), after.inner.graph());
}

} // verus!
