//! The node store of a BDD manager: the variable order, the reduced and ordered node graph, its
//! unique table and the `ite` cache.

use super::graph::{
    bottom_id, cofactors, eval, graph_wf, injective, is_terminal, ite_ok, lemma_cofactor_eval,
    lemma_eval_node, lemma_extend, lemma_extend_function, lemma_graph_insert, lemma_ite_ok_extend,
    lemma_ite_step, lemma_independent, live, min3, node_ok, top_id, top_level, assign,
    lemma_relabel, lemma_graph_reorder, same_function, reaches, reachable_set, lemma_reaches_child,
    lemma_reaches_closed, lemma_ite_ok_shrink,
};
use super::order::{Level, Order, VarID, is_permutation, shifted};
use super::table::{
    node_entries, node_table_get, node_table_insert, node_table_keys, node_table_new,
    node_table_remove, triple_entries, triple_table_clear, triple_table_get, triple_table_insert,
    triple_table_new, triple_table_remove,
};
use dashmap::DashMap;
use std::collections::hash_map::RandomState;
use std::collections::HashSet;
use vstd::prelude::*;

verus! {

/// The identifier of a node slot; `0` and `1` are the `false` and `true` terminals.
#[derive(Clone, Copy, PartialEq, Eq, Structural, Hash, Debug)]
pub struct SlotID(pub u32);

impl SlotID {
    /// The `true` terminal.
    pub fn top() -> (r: SlotID)
        ensures
            r.0 == top_id(),
    {
        SlotID(1)
    }

    /// The `false` terminal.
    pub fn bottom() -> (r: SlotID)
        ensures
            r.0 == bottom_id(),
    {
        SlotID(0)
    }

    /// Whether the slot is one of the two terminals.
    pub fn is_terminal(&self) -> (r: bool)
        ensures
            r == is_terminal(self.0),
    {
        self.0 == 1 || self.0 == 0
    }
}

/// Every stored node is registered in the unique table under its own triple, and nothing else is.
pub open spec fn tables_ok(
    nodes: Map<u32, (u32, u32, u32)>,
    uniq: Map<(u32, u32, u32), u32>,
    next: u32,
) -> bool {
    &&& forall|id: u32| #[trigger]
        nodes.dom().contains(id) ==> uniq.dom().contains(nodes[id]) && uniq[nodes[id]] == id && id
            < next
    &&& forall|k: (u32, u32, u32)| #[trigger]
        uniq.dom().contains(k) ==> nodes.dom().contains(uniq[k]) && nodes[uniq[k]] == k
}

/// Every cached `ite` result that is still stored denotes the `ite` of its (still live) key.
pub open spec fn cache_ok(
    nodes: Map<u32, (u32, u32, u32)>,
    lv: Seq<u32>,
    cache: Map<(u32, u32, u32), u32>,
    next: u32,
) -> bool {
    forall|k: (u32, u32, u32)| #[trigger]
        cache.dom().contains(k) ==> {
            &&& k.0 < next && k.1 < next && k.2 < next && cache[k] < next
            &&& (live(nodes, k.0) && live(nodes, k.1) && live(nodes, k.2) && nodes.dom().contains(
                cache[k],
            )) ==> ite_ok(nodes, lv, k.0, k.1, k.2, cache[k])
        }
}

/// The store behind a manager.
pub struct Inner {
    pub order: Order,
    pub nodes: DashMap<u32, (u32, u32, u32), RandomState>,
    pub next_node: u32,
    pub unique: DashMap<(u32, u32, u32), u32, RandomState>,
    pub ite_cache: DashMap<(u32, u32, u32), u32, RandomState>,
}

impl Inner {
    /// The stored nodes.
    pub open spec fn graph(&self) -> Map<u32, (u32, u32, u32)> {
        node_entries(self.nodes)
    }

    /// The level of each variable.
    pub open spec fn levels(&self) -> Seq<u32> {
        self.order@
    }

    /// The unique table.
    pub open spec fn uniq(&self) -> Map<(u32, u32, u32), u32> {
        triple_entries(self.unique)
    }

    /// The `ite` cache.
    pub open spec fn cache(&self) -> Map<(u32, u32, u32), u32> {
        triple_entries(self.ite_cache)
    }

    pub open spec fn wf(&self) -> bool {
        &&& self.order.wf()
        &&& graph_wf(self.graph(), self.levels())
        &&& tables_ok(self.graph(), self.uniq(), self.next_node)
        &&& cache_ok(self.graph(), self.levels(), self.cache(), self.next_node)
        &&& self.next_node >= 2
    }

    /// `self` only adds fresh nodes to `old`, under the same order.
    pub open spec fn grows(&self, old: Inner) -> bool {
        &&& self.levels() == old.levels()
        &&& old.graph().submap_of(self.graph())
        &&& self.next_node >= old.next_node
        &&& forall|id: u32| #[trigger]
            self.graph().dom().contains(id) ==> old.graph().dom().contains(id) || id >= old.next_node
        &&& self.counted(old)
    }

    /// The node counter moved only over identifiers handed out to stored nodes: every
    /// identifier from `old`'s counter up to `self`'s names a node of `self`.
    pub open spec fn counted(&self, old: Inner) -> bool {
        forall|id: u32|
            old.next_node <= id < self.next_node ==> #[trigger] self.graph().dom().contains(id)
    }

    /// The number of levels between the root of `id` and the terminals.
    pub open spec fn rank(&self, id: u32) -> int {
        self.levels().len() - top_level(self.graph(), self.levels(), id)
    }

    pub open spec fn live(&self, id: u32) -> bool {
        live(self.graph(), id)
    }

    pub open spec fn top(&self, id: u32) -> nat {
        top_level(self.graph(), self.levels(), id)
    }
}

/// The unique table makes the node graph injective.
pub proof fn lemma_injective(inner: &Inner)
    requires
        inner.wf(),
    ensures
        injective(inner.graph()),
{
    let nodes = inner.graph();
    assert forall|i: u32, j: u32|
        #![trigger nodes[i], nodes[j]]
        nodes.dom().contains(i) && nodes.dom().contains(j) && nodes[i] == nodes[j] implies i == j by {
        assert(inner.uniq()[nodes[i]] == i);
        assert(inner.uniq()[nodes[j]] == j);
    }
}

/// The cache stays correct when the graph only gains fresh nodes.
pub proof fn lemma_cache_grows(
    old: &Inner,
    nodes: Map<u32, (u32, u32, u32)>,
    next: u32,
)
    requires
        old.wf(),
        graph_wf(nodes, old.levels()),
        old.graph().submap_of(nodes),
        next >= old.next_node,
        forall|id: u32| #[trigger]
            nodes.dom().contains(id) ==> old.graph().dom().contains(id) || id >= old.next_node,
    ensures
        cache_ok(nodes, old.levels(), old.cache(), next),
{
    let lv = old.levels();
    let cache = old.cache();
    assert forall|k: (u32, u32, u32)| #[trigger] cache.dom().contains(k) implies {
        &&& k.0 < next && k.1 < next && k.2 < next && cache[k] < next
        &&& (live(nodes, k.0) && live(nodes, k.1) && live(nodes, k.2) && nodes.dom().contains(
            cache[k],
        )) ==> ite_ok(nodes, lv, k.0, k.1, k.2, cache[k])
    } by {
        if live(nodes, k.0) && live(nodes, k.1) && live(nodes, k.2) && nodes.dom().contains(cache[k]) {
            assert(live(old.graph(), k.0));
            assert(live(old.graph(), k.1));
            assert(live(old.graph(), k.2));
            assert(old.graph().dom().contains(cache[k]));
            lemma_ite_ok_extend(old.graph(), nodes, lv, k.0, k.1, k.2, cache[k]);
        }
    }
}

/// What `make` returns denotes the branch on `var` between `high` and `low`.
pub proof fn lemma_made(
    nodes: Map<u32, (u32, u32, u32)>,
    lv: Seq<u32>,
    var: u32,
    high: u32,
    low: u32,
    id: u32,
)
    requires
        graph_wf(nodes, lv),
        var < lv.len(),
        live(nodes, high),
        live(nodes, low),
        top_level(nodes, lv, high) > lv[var as int],
        top_level(nodes, lv, low) > lv[var as int],
        high == low ==> id == high,
        high != low ==> nodes.dom().contains(id) && nodes[id] == (var, high, low),
    ensures
        live(nodes, id),
        top_level(nodes, lv, id) >= lv[var as int],
        forall|a: spec_fn(u32) -> bool| #[trigger]
            eval(nodes, lv, id, a) == if a(var) {
                eval(nodes, lv, high, a)
            } else {
                eval(nodes, lv, low, a)
            },
{
    if high != low {
        assert forall|a: spec_fn(u32) -> bool| #[trigger]
            eval(nodes, lv, id, a) == if a(var) {
                eval(nodes, lv, high, a)
            } else {
                eval(nodes, lv, low, a)
            } by {
            lemma_eval_node(nodes, lv, id, a);
        }
        lemma_eval_node(nodes, lv, id, |y: u32| true);
    }
}

impl Inner {
    /// An empty store.
    pub fn new() -> (r: Inner)
        ensures
            r.wf(),
            r.levels() == Seq::<u32>::empty(),
            r.graph().dom().is_empty(),
            r.next_node == 2,
    {
        let r = Inner {
            order: Order::new(),
            nodes: node_table_new(),
            next_node: 2,
            unique: triple_table_new(),
            ite_cache: triple_table_new(),
        };
        proof {
            assert(r.graph().dom() =~= Set::<u32>::empty());
        }
        r
    }

    /// The node stored at a non-terminal live identifier.
    pub fn node(&self, id: u32) -> (r: (u32, u32, u32))
        requires
            self.wf(),
            self.graph().dom().contains(id),
        ensures
            r == self.graph()[id],
    {
        match node_table_get(&self.nodes, id) {
            Some(n) => n,
            None => {
                proof {
                    assert(false);
                }
                (0, 0, 0)
            },
        }
    }

    /// The level of a variable.
    pub fn level(&self, var: u32) -> (r: u32)
        requires
            self.wf(),
            var < self.levels().len(),
        ensures
            r == self.levels()[var as int],
            r < self.levels().len(),
    {
        proof {
            self.order.lemma_wf();
        }
        self.order.level_of(VarID(var)).0
    }

    /// The level of the root of a live identifier; terminals sit below every variable.
    pub fn top_level_of(&self, id: u32) -> (r: u32)
        requires
            self.wf(),
            self.live(id),
        ensures
            r == self.top(id),
    {
        proof {
            self.order.lemma_wf();
        }
        if id == 0 || id == 1 {
            self.order.size()
        } else {
            proof {
                assert(node_ok(self.graph(), self.levels(), id));
            }
            let t = self.node(id);
            self.level(t.0)
        }
    }

    /// Intern a node, returning the identifier of the unique reduced node with these
    /// components. `None` when a fresh node is needed and no identifier is left.
    pub fn make(&mut self, var: u32, high: u32, low: u32) -> (r: Option<u32>)
        requires
            old(self).wf(),
            var < old(self).levels().len(),
            old(self).live(high),
            old(self).live(low),
            high != low ==> old(self).top(high) > old(self).levels()[var as int],
            high != low ==> old(self).top(low) > old(self).levels()[var as int],
        ensures
            final(self).wf(),
            final(self).grows(*old(self)),
            r is None <==> (high != low && !old(self).uniq().dom().contains((var, high, low))
                && old(self).next_node == u32::MAX),
            forall|i: u32| #[trigger]
                final(self).graph().dom().contains(i) && !old(self).graph().dom().contains(i)
                    ==> final(self).graph()[i] == (var, high, low),
            r matches Some(id) ==> {
                &&& final(self).live(id)
                &&& (high == low ==> id == high)
                &&& (high != low ==> final(self).graph().dom().contains(id) && final(self).graph()[id]
                    == (var, high, low))
            },
    {
        if high == low {
            return Some(high);
        }
        let key = (var, high, low);
        match triple_table_get(&self.unique, key) {
            Some(id) => Some(id),
            None => {
                if self.next_node == u32::MAX {
                    return None;
                }
                let id = self.next_node;
                let ghost old_nodes = self.graph();
                proof {
                    lemma_graph_insert(self.graph(), self.levels(), id, key);
                    assert(!old_nodes.dom().contains(id)) by {
                        if old_nodes.dom().contains(id) {
                            assert(id < old(self).next_node);
                        }
                    }
                }
                self.next_node = self.next_node + 1;
                node_table_insert(&mut self.nodes, id, key);
                triple_table_insert(&mut self.unique, key, id);
                proof {
                    let nodes = self.graph();
                    let uniq = self.uniq();
                    assert(nodes == old_nodes.insert(id, key));
                    assert forall|i: u32| #[trigger] nodes.dom().contains(i) implies uniq.dom().contains(
                        nodes[i],
                    ) && uniq[nodes[i]] == i && i < self.next_node by {
                        if i != id {
                            assert(old_nodes.dom().contains(i));
                            assert(old(self).uniq()[old_nodes[i]] == i);
                        }
                    }
                    assert forall|k: (u32, u32, u32)| #[trigger] uniq.dom().contains(k) implies nodes.dom().contains(
                        uniq[k],
                    ) && nodes[uniq[k]] == k by {
                        if k != key {
                            assert(old(self).uniq().dom().contains(k));
                        }
                    }
                    lemma_cache_grows(old(self), nodes, self.next_node);
                }
                Some(id)
            },
        }
    }

    /// The cofactors of a live identifier with respect to `var`.
    pub fn cofactor(&self, id: u32, var: u32) -> (r: (u32, u32))
        requires
            self.wf(),
            self.live(id),
        ensures
            cofactors(self.graph(), id, var, r.0, r.1),
            self.live(r.0),
            self.live(r.1),
    {
        if id == 0 || id == 1 {
            return (id, id);
        }
        let n = self.node(id);
        proof {
            assert(node_ok(self.graph(), self.levels(), id));
        }
        if n.0 == var {
            (n.2, n.1)
        } else {
            (id, id)
        }
    }

    /// `if g then t else e`, built bottom-up by Shannon expansion on the highest variable of the
    /// three arguments. `None` when the node identifiers are exhausted.
    pub fn ite(&mut self, g: u32, t: u32, e: u32) -> (r: Option<u32>)
        requires
            old(self).wf(),
            old(self).live(g),
            old(self).live(t),
            old(self).live(e),
        ensures
            final(self).wf(),
            final(self).grows(*old(self)),
            r matches Some(id) ==> final(self).live(id) && ite_ok(
                final(self).graph(),
                final(self).levels(),
                g,
                t,
                e,
                id,
            ),
            r is None ==> final(self).next_node == u32::MAX,
        decreases old(self).rank(g) + old(self).rank(t) + old(self).rank(e), 1int,
    {
        proof {
            lemma_grows_refl(self);
        }
        if t == e {
            return Some(t);
        }
        if g == 1 {
            return Some(t);
        }
        if g == 0 {
            return Some(e);
        }
        let key = (g, t, e);
        match triple_table_get(&self.ite_cache, key) {
            Some(cached) => {
                if node_table_get(&self.nodes, cached).is_some() {
                    return Some(cached);
                }
                triple_table_remove(&mut self.ite_cache, key);
                proof {
                    assert forall|k: (u32, u32, u32)| #[trigger] self.cache().dom().contains(k) implies old(
                        self,
                    ).cache().dom().contains(k) && self.cache()[k] == old(self).cache()[k] by {}
                    assert(self.graph() == old(self).graph());
                    assert(self.grows(*old(self)));
                }
            },
            None => {},
        }
        let ghost s0 = *self;
        let r = self.ite_expand(g, t, e);
        proof {
            lemma_grows_trans(old(self), &s0, self);
        }
        match r {
            Some(result) => {
                let ghost s1 = *self;
                self.cache_insert(g, t, e, result);
                proof {
                    lemma_grows_trans(old(self), &s1, self);
                }
                Some(result)
            },
            None => None,
        }
    }

    /// Record a computed `ite` in the cache.
    fn cache_insert(&mut self, g: u32, t: u32, e: u32, r: u32)
        requires
            old(self).wf(),
            old(self).live(g),
            old(self).live(t),
            old(self).live(e),
            old(self).live(r),
            ite_ok(old(self).graph(), old(self).levels(), g, t, e, r),
        ensures
            final(self).wf(),
            final(self).grows(*old(self)),
            final(self).graph() == old(self).graph(),
            final(self).levels() == old(self).levels(),
            final(self).next_node == old(self).next_node,
            final(self).uniq() == old(self).uniq(),
            final(self).cache() == old(self).cache().insert((g, t, e), r),
    {
        let ghost s3 = *self;
        triple_table_insert(&mut self.ite_cache, (g, t, e), r);
        proof {
            let f = self.graph();
            let lv = self.levels();
            assert(g < s3.next_node && t < s3.next_node && e < s3.next_node && r < s3.next_node) by {
                if !is_terminal(g) {
                    assert(f.dom().contains(g));
                }
                if !is_terminal(t) {
                    assert(f.dom().contains(t));
                }
                if !is_terminal(e) {
                    assert(f.dom().contains(e));
                }
                if !is_terminal(r) {
                    assert(f.dom().contains(r));
                }
            }
            assert forall|k: (u32, u32, u32)| #[trigger] self.cache().dom().contains(k) implies {
                &&& k.0 < self.next_node && k.1 < self.next_node && k.2 < self.next_node
                    && self.cache()[k] < self.next_node
                &&& (live(f, k.0) && live(f, k.1) && live(f, k.2) && f.dom().contains(self.cache()[k]))
                    ==> ite_ok(f, lv, k.0, k.1, k.2, self.cache()[k])
            } by {
                if k != (g, t, e) {
                    assert(s3.cache().dom().contains(k));
                }
            }
            lemma_grows_refl(&s3);
        }
    }

    /// The Shannon expansion step of `ite` for a non-terminal guard and distinct branches.
    #[verifier::rlimit(40)]
    fn ite_expand(&mut self, g: u32, t: u32, e: u32) -> (r: Option<u32>)
        requires
            old(self).wf(),
            old(self).graph().dom().contains(g),
            old(self).live(t),
            old(self).live(e),
        ensures
            final(self).wf(),
            final(self).grows(*old(self)),
            r matches Some(id) ==> final(self).live(id) && ite_ok(
                final(self).graph(),
                final(self).levels(),
                g,
                t,
                e,
                id,
            ),
            r is None ==> final(self).next_node == u32::MAX,
        decreases old(self).rank(g) + old(self).rank(t) + old(self).rank(e), 0int,
    {
        proof {
            self.order.lemma_wf();
            assert(node_ok(self.graph(), self.levels(), g));
            lemma_grows_refl(self);
        }
        let gn = self.node(g);
        let mut var = gn.0;
        let mut lvar = self.level(gn.0);
        if t != 0 && t != 1 {
            let tn = self.node(t);
            proof {
                assert(node_ok(self.graph(), self.levels(), t));
            }
            let lt = self.level(tn.0);
            if lt < lvar {
                var = tn.0;
                lvar = lt;
            }
        }
        if e != 0 && e != 1 {
            let en = self.node(e);
            proof {
                assert(node_ok(self.graph(), self.levels(), e));
            }
            let le = self.level(en.0);
            if le < lvar {
                var = en.0;
                lvar = le;
            }
        }
        let ghost s0 = *self;
        let ghost lv = self.levels();
        proof {
            assert(var < lv.len());
            assert(lvar == lv[var as int]);
            assert(lvar == min3(s0.top(g), s0.top(t), s0.top(e)));
        }
        let (g0, g1) = self.cofactor(g, var);
        let (t0, t1) = self.cofactor(t, var);
        let (e0, e1) = self.cofactor(e, var);
        proof {
            lemma_cofactor_tops(&s0, g, var, g0, g1);
            lemma_cofactor_tops(&s0, t, var, t0, t1);
            lemma_cofactor_tops(&s0, e, var, e0, e1);
        }
        let high = match self.ite(g1, t1, e1) {
            Some(h) => h,
            None => {
                return None;
            },
        };
        let ghost s1 = *self;
        proof {
            lemma_extend_function(s0.graph(), s1.graph(), lv, g0);
            lemma_extend_function(s0.graph(), s1.graph(), lv, t0);
            lemma_extend_function(s0.graph(), s1.graph(), lv, e0);
        }
        let low = match self.ite(g0, t0, e0) {
            Some(l) => l,
            None => {
                proof {
                    lemma_grows_trans(&s0, &s1, self);
                }
                return None;
            },
        };
        let ghost s2 = *self;
        proof {
            lemma_extend_function(s1.graph(), s2.graph(), lv, high);
            lemma_extend_function(s0.graph(), s1.graph(), lv, g1);
            lemma_extend_function(s0.graph(), s1.graph(), lv, t1);
            lemma_extend_function(s0.graph(), s1.graph(), lv, e1);
        }
        let result = match self.make(var, high, low) {
            Some(res) => res,
            None => {
                proof {
                    lemma_grows_trans(&s1, &s2, self);
                    lemma_grows_trans(&s0, &s1, self);
                }
                return None;
            },
        };
        proof {
            lemma_grows_trans(&s1, &s2, self);
            lemma_grows_trans(&s0, &s1, self);
            lemma_ite_expand_result(&s0, &s1, &s2, self, var, g, t, e, g0, g1, t0, t1, e0, e1, high, low, result);
        }
        Some(result)
    }
}

impl Inner {
    /// Every identifier live in `old` is live in `self` and denotes the same function.
    pub open spec fn keeps(&self, old: Inner) -> bool {
        forall|id: u32| #[trigger]
            old.live(id) ==> self.live(id) && same_function(
                old.graph(),
                old.levels(),
                self.graph(),
                self.levels(),
                id,
            )
    }
}

/// Growing keeps every function.
pub proof fn lemma_grows_keeps(old: &Inner, new: &Inner)
    requires
        old.wf(),
        new.grows(*old),
    ensures
        new.keeps(*old),
{
    assert forall|id: u32| #[trigger] old.live(id) implies new.live(id) && same_function(
        old.graph(),
        old.levels(),
        new.graph(),
        new.levels(),
        id,
    ) by {
        lemma_extend_function(old.graph(), new.graph(), old.levels(), id);
    }
}

/// A store whose order changed without moving the existing variables relative to each other,
/// and whose `ite` cache was emptied, is well formed and keeps every function.
proof fn lemma_reordered(old: &Inner, new: &Inner)
    requires
        old.wf(),
        new.order.wf(),
        new.graph() == old.graph(),
        new.uniq() == old.uniq(),
        new.next_node == old.next_node,
        new.cache().dom().is_empty(),
        new.levels().len() >= old.levels().len(),
        forall|v: int, w: int|
            0 <= v < old.levels().len() && 0 <= w < old.levels().len() && #[trigger] old.levels()[v]
                < #[trigger] old.levels()[w] ==> new.levels()[v] < new.levels()[w],
    ensures
        new.wf(),
        new.keeps(*old),
{
    new.order.lemma_wf();
    lemma_graph_reorder(old.graph(), old.levels(), new.levels());
    assert forall|id: u32| #[trigger] old.live(id) implies new.live(id) && same_function(
        old.graph(),
        old.levels(),
        new.graph(),
        new.levels(),
        id,
    ) by {
        assert forall|a: spec_fn(u32) -> bool| #[trigger]
            eval(new.graph(), new.levels(), id, a) == eval(old.graph(), old.levels(), id, a) by {
            lemma_relabel(old.graph(), old.levels(), new.levels(), id, a);
        }
    }
}

impl Inner {
    /// The number of variables.
    pub fn n_vars(&self) -> (r: u32)
        requires
            self.wf(),
        ensures
            r == self.levels().len(),
    {
        self.order.size()
    }

    /// The variable at a level, if the level is occupied.
    pub fn var_at(&self, level: Level) -> (r: Option<VarID>)
        requires
            self.wf(),
        ensures
            r is None <==> level.0 >= self.levels().len(),
            r matches Some(v) ==> v.0 < self.levels().len() && self.levels()[v.0 as int] == level.0,
    {
        self.order.var_at(level)
    }

    /// Add a variable at the bottom of the order.
    pub fn add_var(&mut self) -> (r: u32)
        requires
            old(self).wf(),
            old(self).levels().len() < u32::MAX,
        ensures
            final(self).wf(),
            final(self).keeps(*old(self)),
            final(self).graph() == old(self).graph(),
            final(self).next_node == old(self).next_node,
            r == old(self).levels().len(),
            final(self).levels() == old(self).levels().push(r),
    {
        let v = self.order.add_var();
        triple_table_clear(&mut self.ite_cache);
        proof {
            lemma_reordered(old(self), self);
        }
        v.0
    }

    /// Add a variable right after the variable `prec` in the order.
    pub fn add_var_after(&mut self, prec: u32) -> (r: u32)
        requires
            old(self).wf(),
            old(self).levels().len() < u32::MAX,
            prec < old(self).levels().len(),
        ensures
            final(self).wf(),
            final(self).keeps(*old(self)),
            final(self).graph() == old(self).graph(),
            final(self).next_node == old(self).next_node,
            r == old(self).levels().len(),
            final(self).levels() == shifted(old(self).levels(), old(self).levels()[prec as int], 1).push(
                (old(self).levels()[prec as int] + 1) as u32,
            ),
    {
        let level = self.order.level_of(VarID(prec));
        proof {
            self.order.lemma_wf();
        }
        let v = self.order.add_var_after(level);
        triple_table_clear(&mut self.ite_cache);
        proof {
            lemma_reordered(old(self), self);
        }
        v.0
    }

    /// Add `n` variables at the bottom of the order.
    pub fn add_vars(&mut self, n: u32) -> (r: Vec<VarID>)
        requires
            old(self).wf(),
            old(self).levels().len() + n <= u32::MAX,
        ensures
            final(self).wf(),
            final(self).keeps(*old(self)),
            final(self).graph() == old(self).graph(),
            final(self).next_node == old(self).next_node,
            r@.len() == n,
            forall|i: int| 0 <= i < n ==> (#[trigger] r@[i]).0 == old(self).levels().len() + i,
            final(self).levels() == old(self).levels() + Seq::new(
                n as nat,
                |i: int| (old(self).levels().len() + i) as u32,
            ),
    {
        let vars = self.order.add_vars(n);
        triple_table_clear(&mut self.ite_cache);
        proof {
            lemma_reordered(old(self), self);
        }
        vars
    }

    /// Add `n` variables right after the variable `prec` in the order.
    pub fn add_vars_after(&mut self, prec: u32, n: u32) -> (r: Vec<VarID>)
        requires
            old(self).wf(),
            old(self).levels().len() < u32::MAX - n,
            prec < old(self).levels().len(),
        ensures
            final(self).wf(),
            final(self).keeps(*old(self)),
            final(self).graph() == old(self).graph(),
            final(self).next_node == old(self).next_node,
            r@.len() == n,
            forall|i: int| 0 <= i < n ==> (#[trigger] r@[i]).0 == old(self).levels().len() + i,
            final(self).levels() == shifted(old(self).levels(), old(self).levels()[prec as int], n)
                + Seq::new(n as nat, |i: int| (old(self).levels()[prec as int] + 1 + i) as u32),
    {
        let level = self.order.level_of(VarID(prec));
        proof {
            self.order.lemma_wf();
        }
        let vars = self.order.add_vars_after(level, n);
        triple_table_clear(&mut self.ite_cache);
        proof {
            lemma_reordered(old(self), self);
        }
        vars
    }
}

/// The set of marked nodes after marking `c`.
pub open spec fn marked_after(m: Set<u32>, c: u32) -> Set<u32> {
    if !is_terminal(c) && !m.contains(c) {
        m.insert(c)
    } else {
        m
    }
}

/// The work stack after marking `c`: a node is pushed when it is first marked.
pub open spec fn stack_after(m: Set<u32>, s: Seq<u32>, c: u32) -> Seq<u32> {
    if !is_terminal(c) && !m.contains(c) {
        s.push(c)
    } else {
        s
    }
}

/// Every node on the stack is marked, and every marked node off the stack has its children
/// marked (or terminal).
pub open spec fn frontier_ok(nodes: Map<u32, (u32, u32, u32)>, m: Set<u32>, s: Seq<u32>) -> bool {
    &&& forall|k: int| 0 <= k < s.len() ==> m.contains(#[trigger] s[k])
    &&& forall|id: u32| #[trigger]
        m.contains(id) && !s.contains(id) ==> (is_terminal(nodes[id].1) || m.contains(nodes[id].1))
            && (is_terminal(nodes[id].2) || m.contains(nodes[id].2))
}

/// Marking a node keeps the frontier property.
proof fn lemma_mark_keeps(nodes: Map<u32, (u32, u32, u32)>, m: Set<u32>, s: Seq<u32>, c: u32)
    requires
        frontier_ok(nodes, m, s),
    ensures
        frontier_ok(nodes, marked_after(m, c), stack_after(m, s, c)),
{
    let m2 = marked_after(m, c);
    let s2 = stack_after(m, s, c);
    if !is_terminal(c) && !m.contains(c) {
        assert(s2[s.len() as int] == c);
        assert forall|k: int| 0 <= k < s2.len() implies m2.contains(#[trigger] s2[k]) by {
            if k < s.len() {
                assert(m.contains(s[k]));
            }
        }
        assert forall|id: u32| #[trigger]
            m2.contains(id) && !s2.contains(id) implies (is_terminal(nodes[id].1) || m2.contains(
            nodes[id].1,
        )) && (is_terminal(nodes[id].2) || m2.contains(nodes[id].2)) by {
            assert(id != c);
            if s.contains(id) {
                let k = choose|k: int| 0 <= k < s.len() && s[k] == id;
                assert(s2[k] == id);
            }
        }
    }
}

/// Taking a node off the stack and marking its children keeps the frontier property.
proof fn lemma_mark_children(
    nodes: Map<u32, (u32, u32, u32)>,
    m: Set<u32>,
    s: Seq<u32>,
    id: u32,
)
    requires
        frontier_ok(nodes, m, s.push(id)),
    ensures
        frontier_ok(
            nodes,
            marked_after(marked_after(m, nodes[id].1), nodes[id].2),
            stack_after(
                marked_after(m, nodes[id].1),
                stack_after(m, s, nodes[id].1),
                nodes[id].2,
            ),
        ),
{
    let t = nodes[id];
    let m1 = marked_after(m, t.1);
    let s1 = stack_after(m, s, t.1);
    let m2 = marked_after(m1, t.2);
    let s2 = stack_after(m1, s1, t.2);
    let full = s.push(id);
    assert(full[s.len() as int] == id);
    assert(forall|k: int| 0 <= k < s.len() ==> full[k] == s[k]);
    assert(forall|k: int| 0 <= k < s.len() ==> s1[k] == s[k]);
    assert(forall|k: int| 0 <= k < s1.len() ==> s2[k] == s1[k]);
    assert(forall|x: u32| m.contains(x) ==> m2.contains(x));
    assert(is_terminal(t.1) || m2.contains(t.1));
    assert(is_terminal(t.2) || m2.contains(t.2));
    assert forall|x: u32| #[trigger] m2.contains(x) && !m.contains(x) implies s2.contains(x) by {
        if x == t.1 && !m.contains(t.1) {
            assert(s1[s.len() as int] == t.1);
            assert(s2[s.len() as int] == t.1);
        } else {
            assert(x == t.2);
            assert(s2[s1.len() as int] == t.2);
        }
    }
    assert forall|k: int| 0 <= k < s2.len() implies m2.contains(#[trigger] s2[k]) by {
        if k < s.len() {
            assert(m.contains(full[k]));
        } else if k < s1.len() {
            assert(s2[k] == t.1);
        } else {
            assert(s2[k] == t.2);
        }
    }
    assert forall|x: u32| #[trigger]
        m2.contains(x) && !s2.contains(x) implies (is_terminal(nodes[x].1) || m2.contains(
        nodes[x].1,
    )) && (is_terminal(nodes[x].2) || m2.contains(nodes[x].2)) by {
        assert(m.contains(x));
        if x != id {
            if full.contains(x) {
                let k = choose|k: int| 0 <= k < full.len() && full[k] == x;
                assert(k < s.len());
                assert(s2[k] == x);
            }
            assert(m.contains(nodes[x].1) || is_terminal(nodes[x].1));
            assert(m.contains(nodes[x].2) || is_terminal(nodes[x].2));
        }
    }
}

/// Mark `c` and push it on the work stack, unless it is a terminal or already marked.
fn mark(marked: &mut HashSet<u32>, stack: &mut Vec<u32>, c: u32)
    ensures
        final(marked)@ == marked_after(old(marked)@, c),
        final(stack)@ == stack_after(old(marked)@, old(stack)@, c),
{
    broadcast use vstd::std_specs::hash::group_hash_axioms;

    if c != 0 && c != 1 && !marked.contains(&c) {
        marked.insert(c);
        stack.push(c);
    }
}

impl Inner {
    /// Discard every node that no root reaches.
    pub fn reclaim(&mut self, roots: &Vec<u32>)
        requires
            old(self).wf(),
            forall|i: int| 0 <= i < roots@.len() ==> old(self).live(#[trigger] roots@[i]),
        ensures
            final(self).wf(),
            final(self).levels() == old(self).levels(),
            final(self).next_node == old(self).next_node,
            final(self).graph() == old(self).graph().restrict(
                reachable_set(old(self).graph(), old(self).levels(), roots@),
            ),
            forall|id: u32| #[trigger]
                final(self).live(id) ==> old(self).live(id) && same_function(
                    old(self).graph(),
                    old(self).levels(),
                    final(self).graph(),
                    final(self).levels(),
                    id,
                ),
            forall|i: int| 0 <= i < roots@.len() ==> final(self).live(#[trigger] roots@[i]),
    {
        broadcast use vstd::std_specs::hash::group_hash_axioms;

        let ghost nodes = self.graph();
        let ghost lv = self.levels();
        let ghost reach = reachable_set(nodes, lv, roots@);
        let mut marked: HashSet<u32> = HashSet::new();
        let mut stack: Vec<u32> = Vec::new();
        let mut i: usize = 0;
        while i < roots.len()
            invariant
                self == old(self),
                nodes == self.graph(),
                lv == self.levels(),
                reach == reachable_set(nodes, lv, roots@),
                self.wf(),
                0 <= i <= roots@.len(),
                forall|j: int| 0 <= j < roots@.len() ==> old(self).live(#[trigger] roots@[j]),
                marked@.subset_of(nodes.dom()),
                forall|id: u32| #[trigger] marked@.contains(id) ==> reach.contains(id),
                frontier_ok(nodes, marked@, stack@),
                forall|j: int|
                    0 <= j < i && !is_terminal(#[trigger] roots@[j]) ==> marked@.contains(roots@[j]),
            decreases roots@.len() - i,
        {
            let r = roots[i];
            proof {
                if !is_terminal(r) {
                    assert(old(self).live(roots@[i as int]));
                    assert(reaches(nodes, lv, roots@[i as int], r));
                    assert(reach.contains(r));
                }
                lemma_mark_keeps(nodes, marked@, stack@, r);
            }
            mark(&mut marked, &mut stack, r);
            i = i + 1;
        }
        loop
            invariant
                self == old(self),
                forall|j: int| 0 <= j < roots@.len() ==> old(self).live(#[trigger] roots@[j]),
                nodes == self.graph(),
                lv == self.levels(),
                reach == reachable_set(nodes, lv, roots@),
                self.wf(),
                marked@.subset_of(nodes.dom()),
                forall|id: u32| #[trigger] marked@.contains(id) ==> reach.contains(id),
                frontier_ok(nodes, marked@, stack@),
                forall|j: int|
                    0 <= j < roots@.len() && !is_terminal(#[trigger] roots@[j]) ==> marked@.contains(
                        roots@[j],
                    ),
            ensures
                stack@.len() == 0,
                marked@.subset_of(nodes.dom()),
                forall|id: u32| #[trigger] marked@.contains(id) ==> reach.contains(id),
                forall|id: u32| #[trigger]
                    marked@.contains(id) ==> (is_terminal(nodes[id].1) || marked@.contains(nodes[id].1))
                        && (is_terminal(nodes[id].2) || marked@.contains(nodes[id].2)),
            decreases nodes.dom().len() - marked@.len(), stack@.len(),
        {
            proof {
                vstd::set_lib::lemma_len_subset(marked@, nodes.dom());
            }
            let ghost full = stack@;
            let id = match stack.pop() {
                Some(id) => id,
                None => {
                    proof {
                        assert forall|id: u32| #[trigger] marked@.contains(id) implies !stack@.contains(
                            id,
                        ) by {}
                    }
                    break ;
                },
            };
            let ghost before = marked@;
            let ghost rest = stack@;
            let t = self.node(id);
            proof {
                assert(full == rest.push(id));
                assert(full[rest.len() as int] == id);
                assert(marked@.contains(id));
                assert(node_ok(nodes, lv, id));
                assert(reach.contains(id));
                let w = choose|w: int| 0 <= w < roots@.len() && #[trigger] reaches(nodes, lv, roots@[w], id);
                lemma_reaches_child(nodes, lv, roots@[w], id);
                assert(reaches(nodes, lv, roots@[w], t.1));
                assert(reaches(nodes, lv, roots@[w], t.2));
                lemma_mark_children(nodes, before, rest, id);
            }
            mark(&mut marked, &mut stack, t.1);
            mark(&mut marked, &mut stack, t.2);
            proof {
                if marked@.len() == before.len() {
                    assert(marked@ =~= before);
                    assert(stack@.len() < full.len());
                } else {
                    vstd::set_lib::lemma_len_subset(marked@, nodes.dom());
                }
            }
        }
        proof {
            assert forall|id: u32| reach.contains(id) implies #[trigger] marked@.contains(id) by {
                let w = choose|w: int| 0 <= w < roots@.len() && #[trigger] reaches(nodes, lv, roots@[w], id);
                lemma_reaches_closed(nodes, lv, marked@, roots@[w], id);
            }
            assert(marked@ =~= reach);
        }
        let keys = node_table_keys(&self.nodes);
        let mut j: usize = 0;
        while j < keys.len()
            invariant
                0 <= j <= keys@.len(),
                keys@.no_duplicates(),
                forall|k: u32| nodes.dom().contains(k) <==> keys@.contains(k),
                marked@ == reach,
                reach.subset_of(nodes.dom()),
                self.order == old(self).order,
                self.next_node == old(self).next_node,
                self.ite_cache == old(self).ite_cache,
                nodes == old(self).graph(),
                old(self).wf(),
                self.graph().submap_of(nodes),
                forall|k: u32|
                    #[trigger] self.graph().dom().contains(k) <==> (nodes.dom().contains(k) && (reach.contains(
                        k,
                    ) || !keys@.subrange(0, j as int).contains(k))),
                tables_ok(self.graph(), self.uniq(), self.next_node),
            decreases keys@.len() - j,
        {
            let k = keys[j];
            proof {
                assert(nodes.dom().contains(k));
                assert(!keys@.subrange(0, j as int).contains(k));
            }
            if !marked.contains(&k) {
                let ghost before = *self;
                let t = match node_table_get(&self.nodes, k) {
                    Some(t) => t,
                    None => {
                        proof {
                            assert(false);
                        }
                        (0, 0, 0)
                    },
                };
                node_table_remove(&mut self.nodes, k);
                triple_table_remove(&mut self.unique, t);
                proof {
                    let g = self.graph();
                    let u = self.uniq();
                    assert(before.uniq()[t] == k);
                    assert forall|id: u32| #[trigger] g.dom().contains(id) implies u.dom().contains(g[id])
                        && u[g[id]] == id && id < self.next_node by {
                        assert(before.graph().dom().contains(id));
                        if g[id] == t {
                            assert(before.uniq()[before.graph()[id]] == id);
                        }
                    }
                    assert forall|q: (u32, u32, u32)| #[trigger] u.dom().contains(q) implies g.dom().contains(
                        u[q],
                    ) && g[u[q]] == q by {
                        assert(before.uniq().dom().contains(q));
                    }
                }
            }
            proof {
                let prev = keys@.subrange(0, j as int);
                let next = keys@.subrange(0, j + 1);
                assert(next =~= prev.push(k));
                assert forall|q: u32|
                    #[trigger] self.graph().dom().contains(q) <==> (nodes.dom().contains(q) && (
                    reach.contains(q) || !keys@.subrange(0, j + 1).contains(q))) by {
                    if next.contains(q) && q != k {
                        let x = choose|x: int| 0 <= x < next.len() && next[x] == q;
                        assert(prev[x] == q);
                        assert(prev.contains(q));
                    }
                    if prev.contains(q) {
                        let x = choose|x: int| 0 <= x < prev.len() && prev[x] == q;
                        assert(next[x] == q);
                    }
                    assert(next[j as int] == k);
                }
            }
            j = j + 1;
        }
        proof {
            assert(keys@.subrange(0, keys@.len() as int) =~= keys@);
            assert(self.graph() =~= nodes.restrict(reach));
            lemma_reclaimed(old(self), self, reach);
            assert forall|i: int| 0 <= i < roots@.len() implies self.live(#[trigger] roots@[i]) by {
                if !is_terminal(roots@[i]) {
                    assert(reaches(nodes, lv, roots@[i], roots@[i]));
                    assert(reach.contains(roots@[i]));
                }
            }
        }
    }
}

/// Restricting the graph to a set closed under children keeps the store well formed and every
/// remaining function unchanged.
proof fn lemma_reclaimed(old: &Inner, new: &Inner, keep: Set<u32>)
    requires
        old.wf(),
        new.order == old.order,
        new.next_node == old.next_node,
        new.ite_cache == old.ite_cache,
        new.graph() == old.graph().restrict(keep),
        keep.subset_of(old.graph().dom()),
        forall|id: u32| #[trigger]
            keep.contains(id) ==> (is_terminal(old.graph()[id].1) || keep.contains(old.graph()[id].1))
                && (is_terminal(old.graph()[id].2) || keep.contains(old.graph()[id].2)),
        tables_ok(new.graph(), new.uniq(), new.next_node),
    ensures
        new.wf(),
        forall|id: u32| #[trigger]
            new.live(id) ==> old.live(id) && same_function(
                old.graph(),
                old.levels(),
                new.graph(),
                new.levels(),
                id,
            ),
{
    let n1 = new.graph();
    let n2 = old.graph();
    let lv = old.levels();
    assert(n1.submap_of(n2));
    assert forall|id: u32| #[trigger] n1.dom().contains(id) implies node_ok(n1, lv, id) by {
        assert(node_ok(n2, lv, id));
    }
    assert(n1.dom().finite()) by {
        assert(n1.dom() =~= keep);
        vstd::set_lib::lemma_set_subset_finite(n2.dom(), keep);
    }
    assert(graph_wf(n1, lv));
    assert forall|k: (u32, u32, u32)| #[trigger] new.cache().dom().contains(k) implies {
        &&& k.0 < new.next_node && k.1 < new.next_node && k.2 < new.next_node && new.cache()[k]
            < new.next_node
        &&& (live(n1, k.0) && live(n1, k.1) && live(n1, k.2) && n1.dom().contains(new.cache()[k]))
            ==> ite_ok(n1, lv, k.0, k.1, k.2, new.cache()[k])
    } by {
        if live(n1, k.0) && live(n1, k.1) && live(n1, k.2) && n1.dom().contains(new.cache()[k]) {
            lemma_ite_ok_shrink(n1, n2, lv, k.0, k.1, k.2, new.cache()[k]);
        }
    }
    assert forall|id: u32| #[trigger] new.live(id) implies old.live(id) && same_function(
        n2,
        lv,
        n1,
        lv,
        id,
    ) by {
        lemma_extend_function(n1, n2, lv, id);
    }
}

/// `r` denotes `body` with `var` fixed to `value`, and sits no higher than `body`.
pub open spec fn restrict_ok(
    nodes: Map<u32, (u32, u32, u32)>,
    lv: Seq<u32>,
    var: u32,
    value: bool,
    body: u32,
    r: u32,
) -> bool {
    &&& forall|a: spec_fn(u32) -> bool| #[trigger]
        eval(nodes, lv, r, a) == eval(nodes, lv, body, assign(a, var, value))
    &&& top_level(nodes, lv, r) >= top_level(nodes, lv, body)
}

/// `restrict_ok` survives adding nodes to the graph.
proof fn lemma_restrict_ok_extend(
    n1: Map<u32, (u32, u32, u32)>,
    n2: Map<u32, (u32, u32, u32)>,
    lv: Seq<u32>,
    var: u32,
    value: bool,
    body: u32,
    r: u32,
)
    requires
        graph_wf(n1, lv),
        n1.submap_of(n2),
        live(n1, body),
        live(n1, r),
        restrict_ok(n1, lv, var, value, body, r),
    ensures
        restrict_ok(n2, lv, var, value, body, r),
{
    lemma_extend_function(n1, n2, lv, body);
    lemma_extend_function(n1, n2, lv, r);
    assert forall|a: spec_fn(u32) -> bool| #[trigger]
        eval(n2, lv, r, a) == eval(n2, lv, body, assign(a, var, value)) by {
        assert(eval(n1, lv, r, a) == eval(n1, lv, body, assign(a, var, value)));
        assert(eval(n2, lv, body, assign(a, var, value)) == eval(n1, lv, body, assign(a, var, value)));
        assert(eval(n2, lv, r, a) == eval(n1, lv, r, a));
    }
}

impl Inner {
    /// `body` with the variable `var` fixed to `value`. `None` when the node identifiers are
    /// exhausted.
    pub fn restrict(&mut self, var: u32, value: bool, body: u32) -> (r: Option<u32>)
        requires
            old(self).wf(),
            var < old(self).levels().len(),
            old(self).live(body),
        ensures
            final(self).wf(),
            final(self).grows(*old(self)),
            r matches Some(id) ==> final(self).live(id) && restrict_ok(
                final(self).graph(),
                final(self).levels(),
                var,
                value,
                body,
                id,
            ),
            r is None ==> final(self).next_node == u32::MAX,
        decreases old(self).rank(body),
    {
        proof {
            lemma_grows_refl(self);
            self.order.lemma_wf();
        }
        let ghost lv = self.levels();
        let ghost s0 = *self;
        if body == 1 {
            return Some(1);
        }
        if body == 0 {
            return Some(0);
        }
        let n = self.node(body);
        proof {
            assert(node_ok(self.graph(), lv, body));
            lemma_eval_node(self.graph(), lv, body, |y: u32| true);
        }
        if n.0 == var {
            let child = if value {
                n.1
            } else {
                n.2
            };
            proof {
                assert forall|a: spec_fn(u32) -> bool| #[trigger]
                    eval(s0.graph(), lv, child, a) == eval(s0.graph(), lv, body, assign(a, var, value)) by {
                    lemma_eval_node(s0.graph(), lv, body, assign(a, var, value));
                    lemma_independent(s0.graph(), lv, child, var, value, a);
                }
            }
            return Some(child);
        }
        let lnode = self.level(n.0);
        let lvar = self.level(var);
        if lnode < lvar {
            let high = match self.restrict(var, value, n.1) {
                Some(h) => h,
                None => return None,
            };
            let ghost s1 = *self;
            proof {
                lemma_extend_function(s0.graph(), s1.graph(), lv, n.2);
            }
            let low = match self.restrict(var, value, n.2) {
                Some(l) => l,
                None => {
                    proof {
                        lemma_grows_trans(&s0, &s1, self);
                    }
                    return None;
                },
            };
            let ghost s2 = *self;
            proof {
                lemma_grows_trans(&s0, &s1, &s2);
                lemma_extend_function(s1.graph(), s2.graph(), lv, high);
                lemma_extend_function(s0.graph(), s1.graph(), lv, n.1);
                lemma_extend_function(s0.graph(), s2.graph(), lv, n.2);
            }
            let result = match self.make(n.0, high, low) {
                Some(res) => res,
                None => {
                    proof {
                        lemma_grows_trans(&s0, &s2, self);
                    }
                    return None;
                },
            };
            proof {
                lemma_grows_trans(&s0, &s2, self);
                lemma_grows_trans(&s1, &s2, self);
                let f = self.graph();
                lemma_made(f, lv, n.0, high, low, result);
                lemma_restrict_ok_extend(s1.graph(), f, lv, var, value, n.1, high);
                lemma_restrict_ok_extend(s2.graph(), f, lv, var, value, n.2, low);
                lemma_extend_function(s0.graph(), f, lv, body);
                lemma_extend_function(s0.graph(), f, lv, n.1);
                lemma_extend_function(s0.graph(), f, lv, n.2);
                assert(f.dom().contains(body) && f[body] == n);
                assert forall|a: spec_fn(u32) -> bool| #[trigger]
                    eval(f, lv, result, a) == eval(f, lv, body, assign(a, var, value)) by {
                    lemma_eval_node(f, lv, body, assign(a, var, value));
                    assert(eval(f, lv, high, a) == eval(f, lv, n.1, assign(a, var, value)));
                    assert(eval(f, lv, low, a) == eval(f, lv, n.2, assign(a, var, value)));
                }
            }
            Some(result)
        } else {
            proof {
                assert(lnode != lvar);
                assert forall|a: spec_fn(u32) -> bool| #[trigger]
                    eval(s0.graph(), lv, body, a) == eval(s0.graph(), lv, body, assign(a, var, value)) by {
                    lemma_independent(s0.graph(), lv, body, var, value, a);
                }
            }
            Some(body)
        }
    }
}

/// The result of the expansion step denotes the `ite` of its arguments.
proof fn lemma_ite_expand_result(
    s0: &Inner,
    s1: &Inner,
    s2: &Inner,
    s3: &Inner,
    var: u32,
    g: u32,
    t: u32,
    e: u32,
    g0: u32,
    g1: u32,
    t0: u32,
    t1: u32,
    e0: u32,
    e1: u32,
    high: u32,
    low: u32,
    result: u32,
)
    requires
        s0.wf(),
        s1.wf(),
        s2.wf(),
        s3.wf(),
        s1.grows(*s0),
        s2.grows(*s1),
        s3.grows(*s2),
        s3.grows(*s0),
        s0.live(g),
        s0.live(t),
        s0.live(e),
        var < s0.levels().len(),
        s0.levels()[var as int] == min3(s0.top(g), s0.top(t), s0.top(e)),
        cofactors(s0.graph(), g, var, g0, g1),
        cofactors(s0.graph(), t, var, t0, t1),
        cofactors(s0.graph(), e, var, e0, e1),
        s0.live(g0),
        s0.live(g1),
        s0.live(t0),
        s0.live(t1),
        s0.live(e0),
        s0.live(e1),
        s1.live(high),
        ite_ok(s1.graph(), s1.levels(), g1, t1, e1, high),
        s2.live(low),
        ite_ok(s2.graph(), s2.levels(), g0, t0, e0, low),
        s2.top(high) > s0.levels()[var as int],
        s2.top(low) > s0.levels()[var as int],
        high == low ==> result == high,
        high != low ==> s3.graph().dom().contains(result) && s3.graph()[result] == (var, high, low),
    ensures
        s3.live(result),
        ite_ok(s3.graph(), s3.levels(), g, t, e, result),
{
    let lv = s0.levels();
    let f = s3.graph();
    lemma_grows_trans(s1, s2, s3);
    lemma_extend_function(s2.graph(), f, lv, high);
    lemma_extend_function(s2.graph(), f, lv, low);
    lemma_made(f, lv, var, high, low, result);
    lemma_grows_trans(s0, s1, s2);
    lemma_extend_function(s0.graph(), s1.graph(), lv, g1);
    lemma_extend_function(s0.graph(), s1.graph(), lv, t1);
    lemma_extend_function(s0.graph(), s1.graph(), lv, e1);
    lemma_extend_function(s0.graph(), s2.graph(), lv, g0);
    lemma_extend_function(s0.graph(), s2.graph(), lv, t0);
    lemma_extend_function(s0.graph(), s2.graph(), lv, e0);
    lemma_ite_ok_extend(s1.graph(), f, lv, g1, t1, e1, high);
    lemma_ite_ok_extend(s2.graph(), f, lv, g0, t0, e0, low);
    lemma_extend_function(s0.graph(), f, lv, g);
    lemma_extend_function(s0.graph(), f, lv, t);
    lemma_extend_function(s0.graph(), f, lv, e);
    lemma_cofactors_extend(s0.graph(), f, g, var, g0, g1);
    lemma_cofactors_extend(s0.graph(), f, t, var, t0, t1);
    lemma_cofactors_extend(s0.graph(), f, e, var, e0, e1);
    lemma_ite_step(f, lv, var, g, t, e, g0, g1, t0, t1, e0, e1, high, low, result);
}

/// A store grows into itself.
pub proof fn lemma_grows_refl(s: &Inner)
    ensures
        s.grows(*s),
{
}

/// Growing is transitive.
pub proof fn lemma_grows_trans(a: &Inner, b: &Inner, c: &Inner)
    requires
        b.grows(*a),
        c.grows(*b),
    ensures
        c.grows(*a),
{
    assert forall|k: u32| #[trigger] a.graph().dom().contains(k) implies c.graph().dom().contains(k)
        && a.graph()[k] == c.graph()[k] by {
        assert(b.graph().dom().contains(k));
        assert(b.graph()[k] == a.graph()[k]);
        assert(c.graph().dom().contains(k));
        assert(c.graph()[k] == b.graph()[k]);
    }
    assert forall|id: u32| #[trigger] c.graph().dom().contains(id) implies a.graph().dom().contains(
        id,
    ) || id >= a.next_node by {
        if !b.graph().dom().contains(id) {
        } else if !a.graph().dom().contains(id) {
        }
    }    assert forall|id: u32| a.next_node <= id < c.next_node implies #[trigger] c.graph().dom().contains(
        id,
    ) by {
        if id < b.next_node {
            assert(b.graph().dom().contains(id));
        }
    }
}

/// The cofactors of a live identifier with respect to the highest variable among a few sit
/// strictly below that variable.
proof fn lemma_cofactor_tops(s: &Inner, id: u32, var: u32, c0: u32, c1: u32)
    requires
        s.wf(),
        s.live(id),
        var < s.levels().len(),
        s.levels()[var as int] <= s.top(id),
        cofactors(s.graph(), id, var, c0, c1),
    ensures
        s.top(c0) > s.levels()[var as int],
        s.top(c1) > s.levels()[var as int],
        s.rank(c0) <= s.rank(id),
        s.rank(c1) <= s.rank(id),
        (!is_terminal(id) && s.graph()[id].0 == var) ==> s.rank(c0) < s.rank(id) && s.rank(c1) < s.rank(
            id,
        ),
{
    s.order.lemma_wf();
    let lv = s.levels();
    if !is_terminal(id) {
        assert(node_ok(s.graph(), lv, id));
        let x = s.graph()[id].0;
        if x != var {
            assert(lv[x as int] != lv[var as int]);
        }
    }
}

/// Cofactors only look at the root node, which growing the graph leaves alone.
proof fn lemma_cofactors_extend(
    n1: Map<u32, (u32, u32, u32)>,
    n2: Map<u32, (u32, u32, u32)>,
    id: u32,
    var: u32,
    c0: u32,
    c1: u32,
)
    requires
        n1.submap_of(n2),
        live(n1, id),
        cofactors(n1, id, var, c0, c1),
    ensures
        cofactors(n2, id, var, c0, c1),
{
    if !is_terminal(id) {
        assert(n1.dom().contains(id));
        assert(n2.dom().contains(id));
        assert(n2[id] == n1[id]);
    }
}

} // verus!
