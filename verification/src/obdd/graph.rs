//! The mathematical model of a BDD node graph: which identifiers are live, the level at which
//! each one sits, and the Boolean function it denotes; together with the facts that the
//! operations of the manager rely on.

use super::order::is_permutation;
use vstd::prelude::*;

verus! {

/// The identifier of the `false` terminal.
pub open spec fn bottom_id() -> u32 {
    0
}

/// The identifier of the `true` terminal.
pub open spec fn top_id() -> u32 {
    1
}

/// Whether an identifier names one of the two terminals.
pub open spec fn is_terminal(id: u32) -> bool {
    id == 0 || id == 1
}

/// Whether an identifier names a terminal or a node stored in the graph.
pub open spec fn live(nodes: Map<u32, (u32, u32, u32)>, id: u32) -> bool {
    is_terminal(id) || nodes.dom().contains(id)
}

/// The level of the variable tested at the root of `id`; terminals sit below every variable.
pub open spec fn top_level(nodes: Map<u32, (u32, u32, u32)>, lv: Seq<u32>, id: u32) -> nat {
    if !is_terminal(id) && nodes.dom().contains(id) && nodes[id].0 < lv.len() && lv[nodes[id].0 as int]
        < lv.len() {
        lv[nodes[id].0 as int] as nat
    } else {
        lv.len()
    }
}

/// The assignment `a` with variable `x` set to `b`.
pub open spec fn assign(a: spec_fn(u32) -> bool, x: u32, b: bool) -> spec_fn(u32) -> bool {
    |y: u32| if y == x { b } else { a(y) }
}

/// The truth value of the function denoted by `id` under the assignment `a`.
pub open spec fn eval(nodes: Map<u32, (u32, u32, u32)>, lv: Seq<u32>, id: u32, a: spec_fn(u32) -> bool) -> bool
    decreases lv.len() - top_level(nodes, lv, id),
{
    if id == 1 {
        true
    } else if id == 0 || !nodes.dom().contains(id) {
        false
    } else {
        let t = nodes[id];
        if top_level(nodes, lv, id) < lv.len() && top_level(nodes, lv, t.1) > top_level(nodes, lv, id)
            && top_level(nodes, lv, t.2) > top_level(nodes, lv, id) {
            if a(t.0) {
                eval(nodes, lv, t.1, a)
            } else {
                eval(nodes, lv, t.2, a)
            }
        } else {
            false
        }
    }
}

/// A stored node is reduced and ordered: it tests an existing variable, its children are live,
/// distinct, and sit strictly below it.
pub open spec fn node_ok(nodes: Map<u32, (u32, u32, u32)>, lv: Seq<u32>, id: u32) -> bool {
    let t = nodes[id];
    &&& id >= 2
    &&& t.0 < lv.len()
    &&& live(nodes, t.1)
    &&& live(nodes, t.2)
    &&& t.1 != t.2
    &&& top_level(nodes, lv, t.1) > lv[t.0 as int]
    &&& top_level(nodes, lv, t.2) > lv[t.0 as int]
}

/// Every stored node is reduced and ordered with respect to the order `lv`.
pub open spec fn graph_wf(nodes: Map<u32, (u32, u32, u32)>, lv: Seq<u32>) -> bool {
    &&& is_permutation(lv)
    &&& lv.len() <= u32::MAX
    &&& nodes.dom().finite()
    &&& forall|id: u32| #[trigger] nodes.dom().contains(id) ==> node_ok(nodes, lv, id)
}

/// No two stored nodes have the same variable and children.
pub open spec fn injective(nodes: Map<u32, (u32, u32, u32)>) -> bool {
    forall|i: u32, j: u32|
        #![trigger nodes[i], nodes[j]]
        nodes.dom().contains(i) && nodes.dom().contains(j) && nodes[i] == nodes[j] ==> i == j
}

/// `id` denotes the same function in both graphs.
pub open spec fn same_function(
    n1: Map<u32, (u32, u32, u32)>,
    lv1: Seq<u32>,
    n2: Map<u32, (u32, u32, u32)>,
    lv2: Seq<u32>,
    id: u32,
) -> bool {
    forall|a: spec_fn(u32) -> bool| #[trigger] eval(n2, lv2, id, a) == eval(n1, lv1, id, a)
}

/// The smallest of three levels.
pub open spec fn min3(x: nat, y: nat, z: nat) -> nat {
    if x <= y && x <= z {
        x
    } else if y <= z {
        y
    } else {
        z
    }
}

/// `r` denotes `if g then t else e`, and sits no higher than the highest of the three.
pub open spec fn ite_ok(nodes: Map<u32, (u32, u32, u32)>, lv: Seq<u32>, g: u32, t: u32, e: u32, r: u32) -> bool {
    &&& forall|a: spec_fn(u32) -> bool| #[trigger]
        eval(nodes, lv, r, a) == if eval(nodes, lv, g, a) {
            eval(nodes, lv, t, a)
        } else {
            eval(nodes, lv, e, a)
        }
    &&& top_level(nodes, lv, r) >= min3(
        top_level(nodes, lv, g),
        top_level(nodes, lv, t),
        top_level(nodes, lv, e),
    )
}

/// `c0` and `c1` are the cofactors of `id` with respect to the variable `x`.
pub open spec fn cofactors(nodes: Map<u32, (u32, u32, u32)>, id: u32, x: u32, c0: u32, c1: u32) -> bool {
    if !is_terminal(id) && nodes.dom().contains(id) && nodes[id].0 == x {
        c0 == nodes[id].2 && c1 == nodes[id].1
    } else {
        c0 == id && c1 == id
    }
}

/// The root of a stored node branches on its variable.
pub proof fn lemma_eval_node(
    nodes: Map<u32, (u32, u32, u32)>,
    lv: Seq<u32>,
    id: u32,
    a: spec_fn(u32) -> bool,
)
    requires
        graph_wf(nodes, lv),
        nodes.dom().contains(id),
    ensures
        top_level(nodes, lv, id) == lv[nodes[id].0 as int],
        eval(nodes, lv, id, a) == if a(nodes[id].0) {
            eval(nodes, lv, nodes[id].1, a)
        } else {
            eval(nodes, lv, nodes[id].2, a)
        },
{
    assert(node_ok(nodes, lv, id));
    assert(lv[nodes[id].0 as int] < lv.len());
}

/// Adding nodes to a graph changes neither the function nor the level of a live identifier.
pub proof fn lemma_extend(
    n1: Map<u32, (u32, u32, u32)>,
    n2: Map<u32, (u32, u32, u32)>,
    lv: Seq<u32>,
    id: u32,
    a: spec_fn(u32) -> bool,
)
    requires
        graph_wf(n1, lv),
        n1.submap_of(n2),
        live(n1, id),
    ensures
        live(n2, id),
        eval(n2, lv, id, a) == eval(n1, lv, id, a),
        top_level(n2, lv, id) == top_level(n1, lv, id),
    decreases lv.len() - top_level(n1, lv, id),
{
    if !is_terminal(id) {
        assert(n1.dom().contains(id));
        assert(n2.dom().contains(id));
        assert(n2[id] == n1[id]);
        let t = n1[id];
        assert(node_ok(n1, lv, id));
        lemma_extend(n1, n2, lv, t.1, a);
        lemma_extend(n1, n2, lv, t.2, a);
    }
}

/// Adding nodes to a graph changes the function of no live identifier.
pub proof fn lemma_extend_function(
    n1: Map<u32, (u32, u32, u32)>,
    n2: Map<u32, (u32, u32, u32)>,
    lv: Seq<u32>,
    id: u32,
)
    requires
        graph_wf(n1, lv),
        n1.submap_of(n2),
        live(n1, id),
    ensures
        live(n2, id),
        same_function(n1, lv, n2, lv, id),
        top_level(n2, lv, id) == top_level(n1, lv, id),
{
    assert forall|a: spec_fn(u32) -> bool| #[trigger] eval(n2, lv, id, a) == eval(n1, lv, id, a) by {
        lemma_extend(n1, n2, lv, id, a);
    }
    lemma_extend(n1, n2, lv, id, |y: u32| true);
}

/// Storing a new reduced and ordered node keeps the graph well formed.
pub proof fn lemma_graph_insert(
    nodes: Map<u32, (u32, u32, u32)>,
    lv: Seq<u32>,
    id: u32,
    t: (u32, u32, u32),
)
    requires
        graph_wf(nodes, lv),
        !nodes.dom().contains(id),
        id >= 2,
        t.0 < lv.len(),
        live(nodes, t.1),
        live(nodes, t.2),
        t.1 != t.2,
        top_level(nodes, lv, t.1) > lv[t.0 as int],
        top_level(nodes, lv, t.2) > lv[t.0 as int],
    ensures
        graph_wf(nodes.insert(id, t), lv),
        nodes.submap_of(nodes.insert(id, t)),
{
    let n2 = nodes.insert(id, t);
    assert(nodes.submap_of(n2));
    assert forall|k: u32| #[trigger] n2.dom().contains(k) implies node_ok(n2, lv, k) by {
        if k == id {
            lemma_extend(nodes, n2, lv, t.1, |y: u32| true);
            lemma_extend(nodes, n2, lv, t.2, |y: u32| true);
        } else {
            assert(nodes.dom().contains(k));
            assert(node_ok(nodes, lv, k));
            lemma_extend(nodes, n2, lv, nodes[k].1, |y: u32| true);
            lemma_extend(nodes, n2, lv, nodes[k].2, |y: u32| true);
        }
    }
}

/// `ite_ok` survives adding nodes to the graph.
pub proof fn lemma_ite_ok_extend(
    n1: Map<u32, (u32, u32, u32)>,
    n2: Map<u32, (u32, u32, u32)>,
    lv: Seq<u32>,
    g: u32,
    t: u32,
    e: u32,
    r: u32,
)
    requires
        graph_wf(n1, lv),
        n1.submap_of(n2),
        live(n1, g),
        live(n1, t),
        live(n1, e),
        live(n1, r),
        ite_ok(n1, lv, g, t, e, r),
    ensures
        ite_ok(n2, lv, g, t, e, r),
{
    lemma_extend_function(n1, n2, lv, g);
    lemma_extend_function(n1, n2, lv, t);
    lemma_extend_function(n1, n2, lv, e);
    lemma_extend_function(n1, n2, lv, r);
    assert forall|a: spec_fn(u32) -> bool| #[trigger]
        eval(n2, lv, r, a) == if eval(n2, lv, g, a) {
            eval(n2, lv, t, a)
        } else {
            eval(n2, lv, e, a)
        } by {
        assert(eval(n1, lv, r, a) == if eval(n1, lv, g, a) {
            eval(n1, lv, t, a)
        } else {
            eval(n1, lv, e, a)
        });
        assert(eval(n2, lv, g, a) == eval(n1, lv, g, a));
        assert(eval(n2, lv, t, a) == eval(n1, lv, t, a));
        assert(eval(n2, lv, e, a) == eval(n1, lv, e, a));
        assert(eval(n2, lv, r, a) == eval(n1, lv, r, a));
    }
}

/// `ite_ok` survives dropping nodes that none of its identifiers needs.
pub proof fn lemma_ite_ok_shrink(
    n1: Map<u32, (u32, u32, u32)>,
    n2: Map<u32, (u32, u32, u32)>,
    lv: Seq<u32>,
    g: u32,
    t: u32,
    e: u32,
    r: u32,
)
    requires
        graph_wf(n1, lv),
        n1.submap_of(n2),
        live(n1, g),
        live(n1, t),
        live(n1, e),
        live(n1, r),
        ite_ok(n2, lv, g, t, e, r),
    ensures
        ite_ok(n1, lv, g, t, e, r),
{
    lemma_extend_function(n1, n2, lv, g);
    lemma_extend_function(n1, n2, lv, t);
    lemma_extend_function(n1, n2, lv, e);
    lemma_extend_function(n1, n2, lv, r);
    assert forall|a: spec_fn(u32) -> bool| #[trigger]
        eval(n1, lv, r, a) == if eval(n1, lv, g, a) {
            eval(n1, lv, t, a)
        } else {
            eval(n1, lv, e, a)
        } by {
        assert(eval(n2, lv, r, a) == if eval(n2, lv, g, a) {
            eval(n2, lv, t, a)
        } else {
            eval(n2, lv, e, a)
        });
        assert(eval(n2, lv, g, a) == eval(n1, lv, g, a));
        assert(eval(n2, lv, t, a) == eval(n1, lv, t, a));
        assert(eval(n2, lv, e, a) == eval(n1, lv, e, a));
        assert(eval(n2, lv, r, a) == eval(n1, lv, r, a));
    }
}

/// Whether `to` can be reached from `from` by following children.
pub open spec fn reaches(nodes: Map<u32, (u32, u32, u32)>, lv: Seq<u32>, from: u32, to: u32) -> bool
    decreases lv.len() - top_level(nodes, lv, from),
{
    if from == to {
        true
    } else if !is_terminal(from) && nodes.dom().contains(from) {
        let t = nodes[from];
        if top_level(nodes, lv, from) < lv.len() && top_level(nodes, lv, t.1) > top_level(
            nodes,
            lv,
            from,
        ) && top_level(nodes, lv, t.2) > top_level(nodes, lv, from) {
            reaches(nodes, lv, t.1, to) || reaches(nodes, lv, t.2, to)
        } else {
            false
        }
    } else {
        false
    }
}

/// The stored nodes reachable from one of the roots.
pub open spec fn reachable_set(nodes: Map<u32, (u32, u32, u32)>, lv: Seq<u32>, roots: Seq<u32>) -> Set<
    u32,
> {
    Set::new(
        |id: u32|
            nodes.dom().contains(id) && exists|i: int|
                0 <= i < roots.len() && #[trigger] reaches(nodes, lv, roots[i], id),
    )
}

/// What reaches a node reaches its children.
pub proof fn lemma_reaches_child(
    nodes: Map<u32, (u32, u32, u32)>,
    lv: Seq<u32>,
    from: u32,
    id: u32,
)
    requires
        graph_wf(nodes, lv),
        live(nodes, from),
        nodes.dom().contains(id),
        reaches(nodes, lv, from, id),
    ensures
        reaches(nodes, lv, from, nodes[id].1),
        reaches(nodes, lv, from, nodes[id].2),
    decreases lv.len() - top_level(nodes, lv, from),
{
    assert(node_ok(nodes, lv, id));
    lemma_eval_node(nodes, lv, id, |y: u32| true);
    if from == id {
        assert(reaches(nodes, lv, nodes[id].1, nodes[id].1));
        assert(reaches(nodes, lv, nodes[id].2, nodes[id].2));
    } else {
        assert(!is_terminal(from));
        assert(node_ok(nodes, lv, from));
        lemma_eval_node(nodes, lv, from, |y: u32| true);
        let t = nodes[from];
        if reaches(nodes, lv, t.1, id) {
            lemma_reaches_child(nodes, lv, t.1, id);
        } else {
            lemma_reaches_child(nodes, lv, t.2, id);
        }
    }
}

/// What is reachable from a live identifier is live.
pub proof fn lemma_reaches_live(nodes: Map<u32, (u32, u32, u32)>, lv: Seq<u32>, from: u32, to: u32)
    requires
        graph_wf(nodes, lv),
        live(nodes, from),
        reaches(nodes, lv, from, to),
    ensures
        live(nodes, to),
    decreases lv.len() - top_level(nodes, lv, from),
{
    if from != to {
        assert(!is_terminal(from));
        assert(node_ok(nodes, lv, from));
        lemma_eval_node(nodes, lv, from, |y: u32| true);
        let t = nodes[from];
        if reaches(nodes, lv, t.1, to) {
            lemma_reaches_live(nodes, lv, t.1, to);
        } else {
            lemma_reaches_live(nodes, lv, t.2, to);
        }
    }
}

/// A set of nodes closed under children contains every node reachable from its members.
pub proof fn lemma_reaches_closed(
    nodes: Map<u32, (u32, u32, u32)>,
    lv: Seq<u32>,
    s: Set<u32>,
    from: u32,
    to: u32,
)
    requires
        graph_wf(nodes, lv),
        s.subset_of(nodes.dom()),
        forall|id: u32| #[trigger]
            s.contains(id) ==> (is_terminal(nodes[id].1) || s.contains(nodes[id].1)) && (is_terminal(
                nodes[id].2,
            ) || s.contains(nodes[id].2)),
        is_terminal(from) || s.contains(from),
        !is_terminal(to),
        reaches(nodes, lv, from, to),
    ensures
        s.contains(to),
    decreases lv.len() - top_level(nodes, lv, from),
{
    if from != to {
        assert(!is_terminal(from));
        assert(node_ok(nodes, lv, from));
        lemma_eval_node(nodes, lv, from, |y: u32| true);
        let t = nodes[from];
        if reaches(nodes, lv, t.1, to) {
            lemma_reaches_closed(nodes, lv, s, t.1, to);
        } else {
            lemma_reaches_closed(nodes, lv, s, t.2, to);
        }
    }
}

/// Fixing the variable of the cofactors selects one of them.
pub proof fn lemma_cofactor_eval(
    nodes: Map<u32, (u32, u32, u32)>,
    lv: Seq<u32>,
    id: u32,
    x: u32,
    c0: u32,
    c1: u32,
    a: spec_fn(u32) -> bool,
)
    requires
        graph_wf(nodes, lv),
        live(nodes, id),
        cofactors(nodes, id, x, c0, c1),
    ensures
        a(x) ==> eval(nodes, lv, id, a) == eval(nodes, lv, c1, a),
        !a(x) ==> eval(nodes, lv, id, a) == eval(nodes, lv, c0, a),
{
    if !is_terminal(id) && nodes[id].0 == x {
        lemma_eval_node(nodes, lv, id, a);
    }
}

/// The Shannon expansion of `ite` on the variable `x`.
pub proof fn lemma_ite_step(
    nodes: Map<u32, (u32, u32, u32)>,
    lv: Seq<u32>,
    x: u32,
    g: u32,
    t: u32,
    e: u32,
    g0: u32,
    g1: u32,
    t0: u32,
    t1: u32,
    e0: u32,
    e1: u32,
    high: u32,
    low: u32,
    r: u32,
)
    requires
        graph_wf(nodes, lv),
        live(nodes, g),
        live(nodes, t),
        live(nodes, e),
        x < lv.len(),
        lv[x as int] == min3(top_level(nodes, lv, g), top_level(nodes, lv, t), top_level(nodes, lv, e)),
        cofactors(nodes, g, x, g0, g1),
        cofactors(nodes, t, x, t0, t1),
        cofactors(nodes, e, x, e0, e1),
        ite_ok(nodes, lv, g1, t1, e1, high),
        ite_ok(nodes, lv, g0, t0, e0, low),
        forall|a: spec_fn(u32) -> bool| #[trigger]
            eval(nodes, lv, r, a) == if a(x) {
                eval(nodes, lv, high, a)
            } else {
                eval(nodes, lv, low, a)
            },
        top_level(nodes, lv, r) >= lv[x as int],
    ensures
        ite_ok(nodes, lv, g, t, e, r),
{
    assert forall|a: spec_fn(u32) -> bool| #[trigger]
        eval(nodes, lv, r, a) == if eval(nodes, lv, g, a) {
            eval(nodes, lv, t, a)
        } else {
            eval(nodes, lv, e, a)
        } by {
        lemma_cofactor_eval(nodes, lv, g, x, g0, g1, a);
        lemma_cofactor_eval(nodes, lv, t, x, t0, t1, a);
        lemma_cofactor_eval(nodes, lv, e, x, e0, e1, a);
        assert(eval(nodes, lv, r, a) == if a(x) {
            eval(nodes, lv, high, a)
        } else {
            eval(nodes, lv, low, a)
        });
        if a(x) {
            assert(eval(nodes, lv, high, a) == if eval(nodes, lv, g1, a) {
                eval(nodes, lv, t1, a)
            } else {
                eval(nodes, lv, e1, a)
            });
        } else {
            assert(eval(nodes, lv, low, a) == if eval(nodes, lv, g0, a) {
                eval(nodes, lv, t0, a)
            } else {
                eval(nodes, lv, e0, a)
            });
        }
    }
}

/// The function of an identifier does not depend on which order the graph is read under, as
/// long as the graph is reduced and ordered under both.
pub proof fn lemma_relabel(
    nodes: Map<u32, (u32, u32, u32)>,
    lv1: Seq<u32>,
    lv2: Seq<u32>,
    id: u32,
    a: spec_fn(u32) -> bool,
)
    requires
        graph_wf(nodes, lv1),
        graph_wf(nodes, lv2),
        live(nodes, id),
    ensures
        eval(nodes, lv2, id, a) == eval(nodes, lv1, id, a),
    decreases lv1.len() - top_level(nodes, lv1, id),
{
    if !is_terminal(id) {
        let t = nodes[id];
        assert(node_ok(nodes, lv1, id));
        lemma_eval_node(nodes, lv1, id, a);
        lemma_eval_node(nodes, lv2, id, a);
        lemma_relabel(nodes, lv1, lv2, t.1, a);
        lemma_relabel(nodes, lv1, lv2, t.2, a);
    }
}

/// A new order that keeps the relative positions of the existing variables keeps the graph
/// reduced and ordered.
pub proof fn lemma_graph_reorder(nodes: Map<u32, (u32, u32, u32)>, lv1: Seq<u32>, lv2: Seq<u32>)
    requires
        graph_wf(nodes, lv1),
        is_permutation(lv2),
        lv2.len() <= u32::MAX,
        lv2.len() >= lv1.len(),
        forall|v: int, w: int|
            0 <= v < lv1.len() && 0 <= w < lv1.len() && #[trigger] lv1[v] < #[trigger] lv1[w] ==> lv2[v]
                < lv2[w],
    ensures
        graph_wf(nodes, lv2),
{
    assert forall|id: u32| #[trigger] nodes.dom().contains(id) implies node_ok(nodes, lv2, id) by {
        assert(node_ok(nodes, lv1, id));
        let t = nodes[id];
        assert(lv2[t.0 as int] < lv2.len());
        if !is_terminal(t.1) {
            assert(node_ok(nodes, lv1, t.1));
            assert(lv1[nodes[t.1].0 as int] > lv1[t.0 as int]);
            assert(lv2[nodes[t.1].0 as int] < lv2.len());
        }
        if !is_terminal(t.2) {
            assert(node_ok(nodes, lv1, t.2));
            assert(lv1[nodes[t.2].0 as int] > lv1[t.0 as int]);
            assert(lv2[nodes[t.2].0 as int] < lv2.len());
        }
    }
}

/// A function does not depend on the variables above its root.
pub proof fn lemma_independent(
    nodes: Map<u32, (u32, u32, u32)>,
    lv: Seq<u32>,
    id: u32,
    x: u32,
    b: bool,
    a: spec_fn(u32) -> bool,
)
    requires
        graph_wf(nodes, lv),
        live(nodes, id),
        x < lv.len(),
        top_level(nodes, lv, id) > lv[x as int],
    ensures
        eval(nodes, lv, id, a) == eval(nodes, lv, id, assign(a, x, b)),
    decreases lv.len() - top_level(nodes, lv, id),
{
    if !is_terminal(id) {
        let t = nodes[id];
        assert(node_ok(nodes, lv, id));
        lemma_eval_node(nodes, lv, id, a);
        lemma_eval_node(nodes, lv, id, assign(a, x, b));
        lemma_independent(nodes, lv, t.1, x, b, a);
        lemma_independent(nodes, lv, t.2, x, b, a);
    }
}

/// The function denoted by a child of `u` is the one of `u` with its root variable fixed.
proof fn lemma_cofactor(
    nodes: Map<u32, (u32, u32, u32)>,
    lv: Seq<u32>,
    u: u32,
    a: spec_fn(u32) -> bool,
)
    requires
        graph_wf(nodes, lv),
        nodes.dom().contains(u),
    ensures
        eval(nodes, lv, nodes[u].1, a) == eval(nodes, lv, u, assign(a, nodes[u].0, true)),
        eval(nodes, lv, nodes[u].2, a) == eval(nodes, lv, u, assign(a, nodes[u].0, false)),
{
    let t = nodes[u];
    assert(node_ok(nodes, lv, u));
    lemma_eval_node(nodes, lv, u, assign(a, t.0, true));
    lemma_eval_node(nodes, lv, u, assign(a, t.0, false));
    lemma_independent(nodes, lv, t.1, t.0, true, a);
    lemma_independent(nodes, lv, t.2, t.0, false, a);
}

/// Two live identifiers that denote the same function are the same identifier.
pub proof fn lemma_canonical(nodes: Map<u32, (u32, u32, u32)>, lv: Seq<u32>, u: u32, v: u32)
    requires
        graph_wf(nodes, lv),
        injective(nodes),
        live(nodes, u),
        live(nodes, v),
        forall|a: spec_fn(u32) -> bool| #[trigger] eval(nodes, lv, u, a) == eval(nodes, lv, v, a),
    ensures
        u == v,
    decreases (lv.len() - top_level(nodes, lv, u)) + (lv.len() - top_level(nodes, lv, v)), 1int,
{
    if is_terminal(u) && is_terminal(v) {
        let a = |y: u32| true;
        assert(eval(nodes, lv, u, a) == eval(nodes, lv, v, a));
    } else if top_level(nodes, lv, u) <= top_level(nodes, lv, v) {
        if is_terminal(u) {
            assert(!is_terminal(v));
            assert(node_ok(nodes, lv, v));
        }
        lemma_canonical_ordered(nodes, lv, u, v);
    } else {
        if is_terminal(v) {
            assert(node_ok(nodes, lv, u));
        }
        lemma_canonical_ordered(nodes, lv, v, u);
    }
}

proof fn lemma_canonical_ordered(nodes: Map<u32, (u32, u32, u32)>, lv: Seq<u32>, u: u32, v: u32)
    requires
        graph_wf(nodes, lv),
        injective(nodes),
        nodes.dom().contains(u),
        live(nodes, v),
        top_level(nodes, lv, u) <= top_level(nodes, lv, v),
        forall|a: spec_fn(u32) -> bool| #[trigger] eval(nodes, lv, u, a) == eval(nodes, lv, v, a),
    ensures
        u == v,
    decreases (lv.len() - top_level(nodes, lv, u)) + (lv.len() - top_level(nodes, lv, v)), 0int,
{
    let t = nodes[u];
    let x = t.0;
    assert(node_ok(nodes, lv, u));
    lemma_eval_node(nodes, lv, u, |y: u32| true);
    if top_level(nodes, lv, v) > lv[x as int] {
        assert forall|a: spec_fn(u32) -> bool| #[trigger]
            eval(nodes, lv, t.1, a) == eval(nodes, lv, v, a) by {
            lemma_cofactor(nodes, lv, u, a);
            assert(eval(nodes, lv, u, assign(a, x, true)) == eval(nodes, lv, v, assign(a, x, true)));
            lemma_independent(nodes, lv, v, x, true, a);
        }
        assert forall|a: spec_fn(u32) -> bool| #[trigger]
            eval(nodes, lv, t.2, a) == eval(nodes, lv, v, a) by {
            lemma_cofactor(nodes, lv, u, a);
            assert(eval(nodes, lv, u, assign(a, x, false)) == eval(nodes, lv, v, assign(a, x, false)));
            lemma_independent(nodes, lv, v, x, false, a);
        }
        lemma_canonical(nodes, lv, t.1, v);
        lemma_canonical(nodes, lv, t.2, v);
    } else {
        assert(!is_terminal(v) && nodes.dom().contains(v));
        assert(node_ok(nodes, lv, v));
        let s = nodes[v];
        assert(lv[s.0 as int] == lv[x as int]);
        assert(s.0 == x);
        lemma_eval_node(nodes, lv, v, |y: u32| true);
        assert forall|a: spec_fn(u32) -> bool| #[trigger]
            eval(nodes, lv, t.1, a) == eval(nodes, lv, s.1, a) by {
            lemma_cofactor(nodes, lv, u, a);
            lemma_cofactor(nodes, lv, v, a);
            assert(eval(nodes, lv, u, assign(a, x, true)) == eval(nodes, lv, v, assign(a, x, true)));
        }
        assert forall|a: spec_fn(u32) -> bool| #[trigger]
            eval(nodes, lv, t.2, a) == eval(nodes, lv, s.2, a) by {
            lemma_cofactor(nodes, lv, u, a);
            lemma_cofactor(nodes, lv, v, a);
            assert(eval(nodes, lv, u, assign(a, x, false)) == eval(nodes, lv, v, assign(a, x, false)));
        }
        lemma_canonical(nodes, lv, t.1, s.1);
        lemma_canonical(nodes, lv, t.2, s.2);
        assert(nodes[u] == nodes[v]);
    }
}

} // verus!
