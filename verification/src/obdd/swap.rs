//! Exchanging two adjacent levels of the variable order: the nodes that test the upper variable
//! and have a child on the lower one are rewritten in place, so that every identifier keeps its
//! function under the new order.

use super::graph::{
    assign, cofactors, eval, graph_wf, injective, is_terminal, lemma_canonical,
    lemma_cofactor_eval, lemma_eval_node, lemma_extend_function, lemma_independent, live, node_ok,
    same_function, top_level,
};
use super::inner::{lemma_grows_keeps, lemma_grows_refl, lemma_grows_trans, lemma_injective, tables_ok, Inner};
use super::order::is_permutation;
use super::order::{Level, VarID};
use super::table::{
    node_table_get, node_table_insert, node_table_keys, triple_table_clear, triple_table_insert,
    triple_table_remove,
};
use vstd::prelude::*;

verus! {

/// A stored node tests `x` (at level `l`) and has a child rooted at level `l + 1`.
pub open spec fn crosses(nodes: Map<u32, (u32, u32, u32)>, lv: Seq<u32>, id: u32, x: u32, l: nat) -> bool {
    &&& nodes.dom().contains(id)
    &&& nodes[id].0 == x
    &&& (top_level(nodes, lv, nodes[id].1) == l + 1 || top_level(nodes, lv, nodes[id].2) == l + 1)
}

/// `c` is rooted at level `l + 2` or below, or is a node on `x` whose children are.
pub open spec fn settled(nodes: Map<u32, (u32, u32, u32)>, lv: Seq<u32>, c: u32, x: u32, l: nat) -> bool {
    ||| top_level(nodes, lv, c) >= l + 2
    ||| {
        &&& !is_terminal(c)
        &&& nodes.dom().contains(c)
        &&& nodes[c].0 == x
        &&& top_level(nodes, lv, nodes[c].1) >= l + 2
        &&& top_level(nodes, lv, nodes[c].2) >= l + 2
    }
}

/// `t` is the node that `id` becomes once `y` sits above `x`: it tests `y`, its children are
/// settled, at least one of them tests `x`, and it denotes the function of `id`.
pub open spec fn swap_ok(
    nodes: Map<u32, (u32, u32, u32)>,
    lv: Seq<u32>,
    x: u32,
    y: u32,
    l: nat,
    id: u32,
    t: (u32, u32, u32),
) -> bool {
    &&& t.0 == y
    &&& live(nodes, t.1)
    &&& live(nodes, t.2)
    &&& t.1 != t.2
    &&& settled(nodes, lv, t.1, x, l)
    &&& settled(nodes, lv, t.2, x, l)
    &&& (top_level(nodes, lv, t.1) < l + 2 || top_level(nodes, lv, t.2) < l + 2)
    &&& forall|a: spec_fn(u32) -> bool| #[trigger]
        eval(nodes, lv, id, a) == if a(y) {
            eval(nodes, lv, t.1, a)
        } else {
            eval(nodes, lv, t.2, a)
        }
}

/// The premises shared by the lemmas on a swap of the levels `l` (variable `x`) and `l + 1`
/// (variable `y`), with `nv` the rewritten nodes.
pub open spec fn swap_premises(
    g1: Map<u32, (u32, u32, u32)>,
    lv: Seq<u32>,
    lv2: Seq<u32>,
    nv: Map<u32, (u32, u32, u32)>,
    x: u32,
    y: u32,
    l: nat,
) -> bool {
    &&& graph_wf(g1, lv)
    &&& injective(g1)
    &&& is_permutation(lv2)
    &&& x < lv.len()
    &&& y < lv.len()
    &&& lv[x as int] == l
    &&& lv[y as int] == l + 1
    &&& lv2 == lv.update(x as int, (l + 1) as u32).update(y as int, l as u32)
    &&& forall|id: u32| #[trigger] nv.dom().contains(id) <==> crosses(g1, lv, id, x, l)
    &&& forall|id: u32| #[trigger] nv.dom().contains(id) ==> swap_ok(g1, lv, x, y, l, id, nv[id])
}

/// Where an identifier sits once the swap is done.
proof fn lemma_swap_top(
    g1: Map<u32, (u32, u32, u32)>,
    lv: Seq<u32>,
    lv2: Seq<u32>,
    nv: Map<u32, (u32, u32, u32)>,
    x: u32,
    y: u32,
    l: nat,
    c: u32,
)
    requires
        swap_premises(g1, lv, lv2, nv, x, y, l),
        live(g1, c),
    ensures
        top_level(g1.union_prefer_right(nv), lv2, c) == if nv.dom().contains(c) {
            l
        } else if top_level(g1, lv, c) == l {
            l + 1
        } else if top_level(g1, lv, c) == l + 1 {
            l
        } else {
            top_level(g1, lv, c)
        },
        nv.dom().contains(c) ==> top_level(g1, lv, c) == l,
{
    let g2 = g1.union_prefer_right(nv);
    if !is_terminal(c) {
        assert(g1.dom().contains(c));
        assert(node_ok(g1, lv, c));
        let w = g1[c].0;
        assert(lv[w as int] < lv.len());
        if nv.dom().contains(c) {
            assert(crosses(g1, lv, c, x, l));
            assert(swap_ok(g1, lv, x, y, l, c, nv[c]));
            assert(g2[c] == nv[c]);
        } else {
            assert(g2[c] == g1[c]);
            if w != x && w != y {
                assert(lv[w as int] != lv[x as int]);
                assert(lv[w as int] != lv[y as int]);
            }
        }
    }
}

/// A rewritten node has a child on `x`, so its new triple is no node's triple but its own.
proof fn lemma_swap_distinct(
    g1: Map<u32, (u32, u32, u32)>,
    lv: Seq<u32>,
    lv2: Seq<u32>,
    nv: Map<u32, (u32, u32, u32)>,
    x: u32,
    y: u32,
    l: nat,
    i: u32,
    j: u32,
)
    requires
        swap_premises(g1, lv, lv2, nv, x, y, l),
        nv.dom().contains(i),
        g1.dom().contains(j),
        i != j,
    ensures
        nv.dom().contains(j) ==> nv[i] != nv[j],
        !nv.dom().contains(j) ==> nv[i] != g1[j],
        nv[i] != g1[j],
{
    assert(swap_ok(g1, lv, x, y, l, i, nv[i]));
    assert(node_ok(g1, lv, j));
    if nv.dom().contains(j) {
        assert(swap_ok(g1, lv, x, y, l, j, nv[j]));
        if nv[i] == nv[j] {
            assert forall|a: spec_fn(u32) -> bool| #[trigger] eval(g1, lv, i, a) == eval(g1, lv, j, a) by {
            }
            lemma_canonical(g1, lv, i, j);
        }
    }
    if nv[i] == g1[j] {
        assert(g1[j].0 == y);
        assert(top_level(g1, lv, g1[j].1) > l + 1);
        assert(top_level(g1, lv, g1[j].2) > l + 1);
    }
}

/// Rewriting the crossing nodes and exchanging the two levels leaves a reduced, ordered and
/// injective graph on the same identifiers.
pub proof fn lemma_swap_graph(
    g1: Map<u32, (u32, u32, u32)>,
    lv: Seq<u32>,
    lv2: Seq<u32>,
    nv: Map<u32, (u32, u32, u32)>,
    x: u32,
    y: u32,
    l: nat,
)
    requires
        swap_premises(g1, lv, lv2, nv, x, y, l),
    ensures
        g1.union_prefer_right(nv).dom() == g1.dom(),
        graph_wf(g1.union_prefer_right(nv), lv2),
        injective(g1.union_prefer_right(nv)),
{
    let g2 = g1.union_prefer_right(nv);
    assert(nv.dom().subset_of(g1.dom()));
    assert(g2.dom() =~= g1.dom());
    assert forall|id: u32| #[trigger] g2.dom().contains(id) implies node_ok(g2, lv2, id) by {
        assert(node_ok(g1, lv, id));
        if nv.dom().contains(id) {
            let t = nv[id];
            assert(swap_ok(g1, lv, x, y, l, id, t));
            lemma_swap_top(g1, lv, lv2, nv, x, y, l, t.1);
            lemma_swap_top(g1, lv, lv2, nv, x, y, l, t.2);
            if nv.dom().contains(t.1) {
                assert(crosses(g1, lv, t.1, x, l));
            }
            if nv.dom().contains(t.2) {
                assert(crosses(g1, lv, t.2, x, l));
            }
            assert(g2[id] == t);
        } else {
            let t = g1[id];
            assert(g2[id] == t);
            lemma_swap_top(g1, lv, lv2, nv, x, y, l, t.1);
            lemma_swap_top(g1, lv, lv2, nv, x, y, l, t.2);
            if t.0 != x && t.0 != y {
                assert(lv[t.0 as int] != lv[x as int]);
                assert(lv[t.0 as int] != lv[y as int]);
            }
        }
    }
    assert forall|i: u32, j: u32|
        #![trigger g2[i], g2[j]]
        g2.dom().contains(i) && g2.dom().contains(j) && g2[i] == g2[j] implies i == j by {
        if i != j {
            if nv.dom().contains(i) {
                lemma_swap_distinct(g1, lv, lv2, nv, x, y, l, i, j);
            } else if nv.dom().contains(j) {
                lemma_swap_distinct(g1, lv, lv2, nv, x, y, l, j, i);
            } else {
                assert(g1[i] == g2[i]);
                assert(g1[j] == g2[j]);
            }
        }
    }
}

/// Every identifier keeps its function through the swap.
pub proof fn lemma_swap_eval(
    g1: Map<u32, (u32, u32, u32)>,
    lv: Seq<u32>,
    lv2: Seq<u32>,
    nv: Map<u32, (u32, u32, u32)>,
    x: u32,
    y: u32,
    l: nat,
    id: u32,
    a: spec_fn(u32) -> bool,
)
    requires
        swap_premises(g1, lv, lv2, nv, x, y, l),
        graph_wf(g1.union_prefer_right(nv), lv2),
        g1.union_prefer_right(nv).dom() == g1.dom(),
        live(g1, id),
    ensures
        eval(g1.union_prefer_right(nv), lv2, id, a) == eval(g1, lv, id, a),
    decreases lv2.len() - top_level(g1.union_prefer_right(nv), lv2, id),
{
    let g2 = g1.union_prefer_right(nv);
    if !is_terminal(id) {
        assert(g2.dom().contains(id));
        assert(node_ok(g2, lv2, id));
        let t = g2[id];
        lemma_eval_node(g2, lv2, id, a);
        lemma_swap_eval(g1, lv, lv2, nv, x, y, l, t.1, a);
        lemma_swap_eval(g1, lv, lv2, nv, x, y, l, t.2, a);
        if nv.dom().contains(id) {
            assert(swap_ok(g1, lv, x, y, l, id, nv[id]));
        } else {
            assert(t == g1[id]);
            lemma_eval_node(g1, lv, id, a);
        }
    }
}

/// Every identifier keeps its function through the swap.
pub proof fn lemma_swap_functions(
    g1: Map<u32, (u32, u32, u32)>,
    lv: Seq<u32>,
    lv2: Seq<u32>,
    nv: Map<u32, (u32, u32, u32)>,
    x: u32,
    y: u32,
    l: nat,
)
    requires
        swap_premises(g1, lv, lv2, nv, x, y, l),
    ensures
        forall|id: u32| #[trigger]
            live(g1, id) ==> same_function(g1, lv, g1.union_prefer_right(nv), lv2, id),
{
    lemma_swap_graph(g1, lv, lv2, nv, x, y, l);
    assert forall|id: u32| #[trigger] live(g1, id) implies same_function(
        g1,
        lv,
        g1.union_prefer_right(nv),
        lv2,
        id,
    ) by {
        assert forall|a: spec_fn(u32) -> bool| #[trigger]
            eval(g1.union_prefer_right(nv), lv2, id, a) == eval(g1, lv, id, a) by {
            lemma_swap_eval(g1, lv, lv2, nv, x, y, l, id, a);
        }
    }
}

/// `id` is what `make` returns for the branch on `x` between `high` and `low`.
pub open spec fn made(nodes: Map<u32, (u32, u32, u32)>, id: u32, x: u32, high: u32, low: u32) -> bool {
    &&& live(nodes, id)
    &&& (high == low ==> id == high)
    &&& (high != low ==> nodes.dom().contains(id) && nodes[id] == (x, high, low))
}

/// The two halves built for a crossing node make up the node it becomes.
pub proof fn lemma_swap_halves(
    nodes: Map<u32, (u32, u32, u32)>,
    lv: Seq<u32>,
    x: u32,
    y: u32,
    l: nat,
    k: u32,
    h0: u32,
    h1: u32,
    l0: u32,
    l1: u32,
    hi: u32,
    lo: u32,
)
    requires
        graph_wf(nodes, lv),
        injective(nodes),
        x < lv.len(),
        y < lv.len(),
        lv[x as int] == l,
        lv[y as int] == l + 1,
        crosses(nodes, lv, k, x, l),
        cofactors(nodes, nodes[k].1, y, h0, h1),
        cofactors(nodes, nodes[k].2, y, l0, l1),
        live(nodes, h0),
        live(nodes, h1),
        live(nodes, l0),
        live(nodes, l1),
        made(nodes, hi, x, h1, l1),
        made(nodes, lo, x, h0, l0),
    ensures
        swap_ok(nodes, lv, x, y, l, k, (y, hi, lo)),
{
    let t = nodes[k];
    assert(node_ok(nodes, lv, k));
    lemma_eval_node(nodes, lv, k, |v: u32| true);
    // Every cofactor sits at level `l + 2` or below.
    if !is_terminal(t.1) {
        assert(node_ok(nodes, lv, t.1));
        lemma_eval_node(nodes, lv, t.1, |v: u32| true);
        if nodes[t.1].0 != y {
            assert(lv[nodes[t.1].0 as int] != lv[y as int]);
        }
    }
    if !is_terminal(t.2) {
        assert(node_ok(nodes, lv, t.2));
        lemma_eval_node(nodes, lv, t.2, |v: u32| true);
        if nodes[t.2].0 != y {
            assert(lv[nodes[t.2].0 as int] != lv[y as int]);
        }
    }
    assert(top_level(nodes, lv, h0) >= l + 2);
    assert(top_level(nodes, lv, h1) >= l + 2);
    assert(top_level(nodes, lv, l0) >= l + 2);
    assert(top_level(nodes, lv, l1) >= l + 2);
    if h1 != l1 {
        lemma_eval_node(nodes, lv, hi, |v: u32| true);
    }
    if h0 != l0 {
        lemma_eval_node(nodes, lv, lo, |v: u32| true);
    }
    // The function of `k`, regrouped on `y`.
    assert forall|a: spec_fn(u32) -> bool| #[trigger]
        eval(nodes, lv, k, a) == if a(y) {
            eval(nodes, lv, hi, a)
        } else {
            eval(nodes, lv, lo, a)
        } by {
        lemma_eval_node(nodes, lv, k, a);
        lemma_cofactor_eval(nodes, lv, t.1, y, h0, h1, a);
        lemma_cofactor_eval(nodes, lv, t.2, y, l0, l1, a);
        if h1 != l1 {
            lemma_eval_node(nodes, lv, hi, a);
        }
        if h0 != l0 {
            lemma_eval_node(nodes, lv, lo, a);
        }
    }
    // The node on `y` among the children of `k` has distinct cofactors, which the two halves
    // keep apart.
    if hi == lo {
        if top_level(nodes, lv, t.1) == l + 1 {
            assert(!is_terminal(t.1) && nodes[t.1].0 == y);
            assert forall|a: spec_fn(u32) -> bool| #[trigger] eval(nodes, lv, h1, a) == eval(
                nodes,
                lv,
                h0,
                a,
            ) by {
                let b = assign(a, x, true);
                lemma_independent(nodes, lv, h1, x, true, a);
                lemma_independent(nodes, lv, h0, x, true, a);
                assert(b(x));
                if h1 != l1 {
                    lemma_eval_node(nodes, lv, hi, b);
                }
                if h0 != l0 {
                    lemma_eval_node(nodes, lv, lo, b);
                }
            }
            lemma_canonical(nodes, lv, h1, h0);
        } else {
            assert(!is_terminal(t.2) && nodes[t.2].0 == y);
            assert forall|a: spec_fn(u32) -> bool| #[trigger] eval(nodes, lv, l1, a) == eval(
                nodes,
                lv,
                l0,
                a,
            ) by {
                let b = assign(a, x, false);
                lemma_independent(nodes, lv, l1, x, false, a);
                lemma_independent(nodes, lv, l0, x, false, a);
                assert(!b(x));
                if h1 != l1 {
                    lemma_eval_node(nodes, lv, hi, b);
                }
                if h0 != l0 {
                    lemma_eval_node(nodes, lv, lo, b);
                }
            }
            lemma_canonical(nodes, lv, l1, l0);
        }
    }
    // If neither half tested `x`, both children of `k` would denote the same function.
    if top_level(nodes, lv, hi) >= l + 2 && top_level(nodes, lv, lo) >= l + 2 {
        assert(h1 == l1);
        assert(h0 == l0);
        assert forall|a: spec_fn(u32) -> bool| #[trigger] eval(nodes, lv, t.1, a) == eval(
            nodes,
            lv,
            t.2,
            a,
        ) by {
            lemma_cofactor_eval(nodes, lv, t.1, y, h0, h1, a);
            lemma_cofactor_eval(nodes, lv, t.2, y, l0, l1, a);
        }
        lemma_canonical(nodes, lv, t.1, t.2);
    }
}

/// Adding nodes keeps a planned rewrite valid.
pub proof fn lemma_swap_ok_grow(
    n1: Map<u32, (u32, u32, u32)>,
    n2: Map<u32, (u32, u32, u32)>,
    lv: Seq<u32>,
    x: u32,
    y: u32,
    l: nat,
    id: u32,
    t: (u32, u32, u32),
)
    requires
        graph_wf(n1, lv),
        n1.submap_of(n2),
        live(n1, id),
        swap_ok(n1, lv, x, y, l, id, t),
    ensures
        swap_ok(n2, lv, x, y, l, id, t),
{
    lemma_extend_function(n1, n2, lv, id);
    lemma_extend_function(n1, n2, lv, t.1);
    lemma_extend_function(n1, n2, lv, t.2);
    if !is_terminal(t.1) && top_level(n1, lv, t.1) < l + 2 {
        assert(node_ok(n1, lv, t.1));
        lemma_extend_function(n1, n2, lv, n1[t.1].1);
        lemma_extend_function(n1, n2, lv, n1[t.1].2);
    }
    if !is_terminal(t.2) && top_level(n1, lv, t.2) < l + 2 {
        assert(node_ok(n1, lv, t.2));
        lemma_extend_function(n1, n2, lv, n1[t.2].1);
        lemma_extend_function(n1, n2, lv, n1[t.2].2);
    }
    assert forall|a: spec_fn(u32) -> bool| #[trigger]
        eval(n2, lv, id, a) == if a(y) {
            eval(n2, lv, t.1, a)
        } else {
            eval(n2, lv, t.2, a)
        } by {
        assert(eval(n1, lv, id, a) == if a(y) {
            eval(n1, lv, t.1, a)
        } else {
            eval(n1, lv, t.2, a)
        });
        assert(eval(n2, lv, id, a) == eval(n1, lv, id, a));
        assert(eval(n2, lv, t.1, a) == eval(n1, lv, t.1, a));
        assert(eval(n2, lv, t.2, a) == eval(n1, lv, t.2, a));
    }
}

/// The rewrites listed in `recs`, keyed by identifier, each as the node on `y` it becomes.
pub open spec fn rec_map(recs: Seq<(u32, u32, u32)>, y: u32) -> Map<u32, (u32, u32, u32)>
    decreases recs.len(),
{
    if recs.len() == 0 {
        Map::empty()
    } else {
        rec_map(recs.drop_last(), y).insert(recs.last().0, (y, recs.last().1, recs.last().2))
    }
}

/// The list of rewrites covers exactly the crossing nodes, once each, and each is valid.
pub open spec fn plan_ok(
    nodes: Map<u32, (u32, u32, u32)>,
    lv: Seq<u32>,
    recs: Seq<(u32, u32, u32)>,
    x: u32,
    y: u32,
    l: nat,
) -> bool {
    &&& forall|p: int, q: int| 0 <= p < q < recs.len() ==> recs[p].0 != recs[q].0
    &&& forall|id: u32| #[trigger]
        rec_map(recs, y).dom().contains(id) <==> crosses(nodes, lv, id, x, l)
    &&& forall|id: u32| #[trigger]
        rec_map(recs, y).dom().contains(id) ==> swap_ok(nodes, lv, x, y, l, id, rec_map(recs, y)[id])
}

/// Every node of `nodes` missing from `base` tests `x` and has its children at level `l + 2`
/// or below.
pub open spec fn fresh_settled(
    nodes: Map<u32, (u32, u32, u32)>,
    base: Map<u32, (u32, u32, u32)>,
    lv: Seq<u32>,
    x: u32,
    l: nat,
) -> bool {
    forall|i: u32| #[trigger]
        nodes.dom().contains(i) && !base.dom().contains(i) ==> nodes[i].0 == x && top_level(
            nodes,
            lv,
            nodes[i].1,
        ) >= l + 2 && top_level(nodes, lv, nodes[i].2) >= l + 2
}

/// Adding the node `(x, high, low)` with both children at level `l + 2` or below keeps the
/// fresh nodes settled.
proof fn lemma_fresh_grow(
    n1: Map<u32, (u32, u32, u32)>,
    n2: Map<u32, (u32, u32, u32)>,
    base: Map<u32, (u32, u32, u32)>,
    lv: Seq<u32>,
    x: u32,
    l: nat,
    high: u32,
    low: u32,
)
    requires
        graph_wf(n1, lv),
        n1.submap_of(n2),
        fresh_settled(n1, base, lv, x, l),
        forall|i: u32| #[trigger]
            n2.dom().contains(i) && !n1.dom().contains(i) ==> n2[i] == (x, high, low),
        live(n1, high),
        live(n1, low),
        top_level(n1, lv, high) >= l + 2,
        top_level(n1, lv, low) >= l + 2,
    ensures
        fresh_settled(n2, base, lv, x, l),
{
    lemma_extend_function(n1, n2, lv, high);
    lemma_extend_function(n1, n2, lv, low);
    assert forall|i: u32| #[trigger]
        n2.dom().contains(i) && !base.dom().contains(i) implies n2[i].0 == x && top_level(
        n2,
        lv,
        n2[i].1,
    ) >= l + 2 && top_level(n2, lv, n2[i].2) >= l + 2 by {
        if n1.dom().contains(i) {
            assert(node_ok(n1, lv, i));
            lemma_extend_function(n1, n2, lv, n1[i].1);
            lemma_extend_function(n1, n2, lv, n1[i].2);
        }
    }
}

/// The cofactors on `y` of an identifier below level `l` sit at level `l + 2` or below.
proof fn lemma_cofactors_below(
    nodes: Map<u32, (u32, u32, u32)>,
    lv: Seq<u32>,
    y: u32,
    l: nat,
    c: u32,
    c0: u32,
    c1: u32,
)
    requires
        graph_wf(nodes, lv),
        y < lv.len(),
        lv[y as int] == l + 1,
        live(nodes, c),
        top_level(nodes, lv, c) > l,
        cofactors(nodes, c, y, c0, c1),
    ensures
        top_level(nodes, lv, c0) >= l + 2,
        top_level(nodes, lv, c1) >= l + 2,
{
    if !is_terminal(c) {
        assert(node_ok(nodes, lv, c));
        lemma_eval_node(nodes, lv, c, |v: u32| true);
        if nodes[c].0 != y {
            assert(lv[nodes[c].0 as int] != lv[y as int]);
        }
    }
}

/// The prefix of length `j + 1` holds what the prefix of length `j` holds, and `s[j]`.
pub proof fn lemma_prefix_push(s: Seq<u32>, j: int)
    requires
        0 <= j < s.len(),
    ensures
        forall|q: u32| #[trigger]
            s.subrange(0, j + 1).contains(q) <==> (s.subrange(0, j).contains(q) || q == s[j]),
{
    let prev = s.subrange(0, j);
    let next = s.subrange(0, j + 1);
    assert forall|q: u32| #[trigger] next.contains(q) <==> (prev.contains(q) || q == s[j]) by {
        if next.contains(q) && q != s[j] {
            let w = choose|w: int| 0 <= w < next.len() && next[w] == q;
            assert(prev[w] == q);
        }
        if prev.contains(q) {
            let w = choose|w: int| 0 <= w < prev.len() && prev[w] == q;
            assert(next[w] == q);
        }
        assert(next[j] == s[j]);
    }
}

/// Settled fresh nodes compose along growth.
proof fn lemma_fresh_trans(
    n0: Map<u32, (u32, u32, u32)>,
    n1: Map<u32, (u32, u32, u32)>,
    n2: Map<u32, (u32, u32, u32)>,
    lv: Seq<u32>,
    x: u32,
    l: nat,
)
    requires
        graph_wf(n1, lv),
        n1.submap_of(n2),
        fresh_settled(n1, n0, lv, x, l),
        fresh_settled(n2, n1, lv, x, l),
    ensures
        fresh_settled(n2, n0, lv, x, l),
{
    assert forall|i: u32| #[trigger]
        n2.dom().contains(i) && !n0.dom().contains(i) implies n2[i].0 == x && top_level(
        n2,
        lv,
        n2[i].1,
    ) >= l + 2 && top_level(n2, lv, n2[i].2) >= l + 2 by {
        if n1.dom().contains(i) {
            assert(node_ok(n1, lv, i));
            lemma_extend_function(n1, n2, lv, n1[i].1);
            lemma_extend_function(n1, n2, lv, n1[i].2);
        }
    }
}

/// Growth by settled fresh nodes crosses no new node.
proof fn lemma_fresh_crossing(
    n0: Map<u32, (u32, u32, u32)>,
    n1: Map<u32, (u32, u32, u32)>,
    lv: Seq<u32>,
    x: u32,
    l: nat,
)
    requires
        graph_wf(n0, lv),
        n0.submap_of(n1),
        fresh_settled(n1, n0, lv, x, l),
    ensures
        forall|id: u32| #[trigger] crosses(n1, lv, id, x, l) <==> crosses(n0, lv, id, x, l),
{
    assert forall|id: u32| #[trigger] crosses(n1, lv, id, x, l) <==> crosses(n0, lv, id, x, l) by {
        if n0.dom().contains(id) {
            assert(node_ok(n0, lv, id));
            assert(n1.dom().contains(id));
            assert(n1[id] == n0[id]);
            lemma_extend_function(n0, n1, lv, n0[id].1);
            lemma_extend_function(n0, n1, lv, n0[id].2);
        } else if n1.dom().contains(id) {
            assert(n1[id].0 == x);
        }
    }
}

impl Inner {
    /// Whether the stored node `k` tests `x` and has a child on `y`, the variable right below.
    fn crossing(&self, x: u32, y: u32, k: u32) -> (r: bool)
        requires
            self.wf(),
            x < self.levels().len(),
            y < self.levels().len(),
            self.levels()[y as int] == self.levels()[x as int] + 1,
            self.graph().dom().contains(k),
        ensures
            r == crosses(self.graph(), self.levels(), k, x, self.levels()[x as int] as nat),
    {
        proof {
            assert(node_ok(self.graph(), self.levels(), k));
        }
        let t = self.node(k);
        if t.0 != x {
            return false;
        }
        let top1 = self.top_level_of(t.1);
        let top2 = self.top_level_of(t.2);
        let ly = self.level(y);
        top1 == ly || top2 == ly
    }
}

impl Inner {
    /// The two halves of the crossing node `k`: its cofactors on `y` joined again on `x`.
    /// `None` when the identifiers run out.
    fn swap_halves(&mut self, x: u32, y: u32, k: u32) -> (r: Option<(u32, u32)>)
        requires
            old(self).wf(),
            x < old(self).levels().len(),
            y < old(self).levels().len(),
            old(self).levels()[y as int] == old(self).levels()[x as int] + 1,
            crosses(old(self).graph(), old(self).levels(), k, x, old(self).levels()[x as int] as nat),
        ensures
            final(self).wf(),
            final(self).grows(*old(self)),
            fresh_settled(
                final(self).graph(),
                old(self).graph(),
                old(self).levels(),
                x,
                old(self).levels()[x as int] as nat,
            ),
            r is None ==> final(self).next_node == u32::MAX,
            r matches Some(p) ==> swap_ok(
                final(self).graph(),
                final(self).levels(),
                x,
                y,
                old(self).levels()[x as int] as nat,
                k,
                (y, p.0, p.1),
            ),
    {
        let ghost sb = *self;
        let ghost lv = self.levels();
        let ghost l: nat = lv[x as int] as nat;
        proof {
            assert(node_ok(sb.graph(), lv, k));
        }
        let t = self.node(k);
        let (h0, h1) = self.cofactor(t.1, y);
        let (l0, l1) = self.cofactor(t.2, y);
        proof {
            lemma_cofactors_below(sb.graph(), lv, y, l, t.1, h0, h1);
            lemma_cofactors_below(sb.graph(), lv, y, l, t.2, l0, l1);
            assert(fresh_settled(sb.graph(), sb.graph(), lv, x, l));
        }
        let hi = match self.make(x, h1, l1) {
            Some(v) => v,
            None => {
                proof {
                    lemma_fresh_grow(sb.graph(), self.graph(), sb.graph(), lv, x, l, h1, l1);
                }
                return None;
            },
        };
        let ghost sm = *self;
        proof {
            lemma_extend_function(sb.graph(), sm.graph(), lv, h0);
            lemma_extend_function(sb.graph(), sm.graph(), lv, l0);
            lemma_fresh_grow(sb.graph(), sm.graph(), sb.graph(), lv, x, l, h1, l1);
        }
        let lo = match self.make(x, h0, l0) {
            Some(v) => v,
            None => {
                proof {
                    lemma_grows_trans(&sb, &sm, self);
                    lemma_fresh_grow(sm.graph(), self.graph(), sm.graph(), lv, x, l, h0, l0);
                    lemma_fresh_trans(sb.graph(), sm.graph(), self.graph(), lv, x, l);
                }
                return None;
            },
        };
        proof {
            let g = self.graph();
            lemma_grows_trans(&sb, &sm, self);
            lemma_fresh_grow(sm.graph(), g, sm.graph(), lv, x, l, h0, l0);
            lemma_fresh_trans(sb.graph(), sm.graph(), g, lv, x, l);
            lemma_extend_function(sb.graph(), g, lv, t.1);
            lemma_extend_function(sb.graph(), g, lv, t.2);
            lemma_extend_function(sb.graph(), g, lv, h0);
            lemma_extend_function(sb.graph(), g, lv, h1);
            lemma_extend_function(sb.graph(), g, lv, l0);
            lemma_extend_function(sb.graph(), g, lv, l1);
            lemma_extend_function(sm.graph(), g, lv, hi);
            lemma_injective(self);
            assert(sb.graph().submap_of(g));
            assert(g.dom().contains(k));
            assert(g[k] == t);
            assert(crosses(g, lv, k, x, l));
            assert(made(g, hi, x, h1, l1));
            assert(made(g, lo, x, h0, l0));
            lemma_swap_halves(g, lv, x, y, l, k, h0, h1, l0, l1, hi, lo);
        }
        Some((hi, lo))
    }
}

impl Inner {
    /// Build, under the current order, the two halves of every node that tests `x` and has a
    /// child on `y`, the variable right below `x`. `None` when the identifiers run out.
    #[verifier::rlimit(40)]
    fn swap_plan(&mut self, x: u32, y: u32) -> (r: Option<Vec<(u32, u32, u32)>>)
        requires
            old(self).wf(),
            x < old(self).levels().len(),
            y < old(self).levels().len(),
            old(self).levels()[y as int] == old(self).levels()[x as int] + 1,
        ensures
            final(self).wf(),
            final(self).grows(*old(self)),
            r is None ==> final(self).next_node == u32::MAX,
            r matches Some(recs) ==> plan_ok(
                final(self).graph(),
                final(self).levels(),
                recs@,
                x,
                y,
                old(self).levels()[x as int] as nat,
            ),
    {
        let ghost s0 = *self;
        let ghost lv = self.levels();
        let ghost l: nat = lv[x as int] as nat;
        proof {
            lemma_grows_refl(self);
        }
        let keys = node_table_keys(&self.nodes);
        let mut recs: Vec<(u32, u32, u32)> = Vec::new();
        let mut j: usize = 0;
        while j < keys.len()
            invariant
                s0 == *old(self),
                s0.wf(),
                self.wf(),
                self.grows(s0),
                lv == s0.levels(),
                x < lv.len(),
                y < lv.len(),
                lv[x as int] == l,
                lv[y as int] == l + 1,
                keys@.no_duplicates(),
                forall|k: u32| s0.graph().dom().contains(k) <==> keys@.contains(k),
                0 <= j <= keys@.len(),
                fresh_settled(self.graph(), s0.graph(), lv, x, l),
                forall|p: int, q: int| 0 <= p < q < recs@.len() ==> recs@[p].0 != recs@[q].0,
                forall|id: u32| #[trigger]
                    rec_map(recs@, y).dom().contains(id) <==> (crosses(s0.graph(), lv, id, x, l)
                        && keys@.subrange(0, j as int).contains(id)),
                forall|id: u32| #[trigger]
                    rec_map(recs@, y).dom().contains(id) ==> swap_ok(
                        self.graph(),
                        lv,
                        x,
                        y,
                        l,
                        id,
                        rec_map(recs@, y)[id],
                    ),
                forall|p: int| 0 <= p < recs@.len() ==> rec_map(recs@, y).dom().contains(#[trigger] recs@[p].0),
            decreases keys@.len() - j,
        {
            let k = keys[j];
            let ghost sb = *self;
            proof {
                assert(keys@.contains(k));
                assert(!keys@.subrange(0, j as int).contains(k));
                lemma_extend_function(s0.graph(), sb.graph(), lv, k);
                assert(node_ok(s0.graph(), lv, k));
                lemma_extend_function(s0.graph(), sb.graph(), lv, s0.graph()[k].1);
                lemma_extend_function(s0.graph(), sb.graph(), lv, s0.graph()[k].2);
            }
            let crossing = self.crossing(x, y, k);
            proof {
                assert(crossing == crosses(s0.graph(), lv, k, x, l)) by {
                    assert(s0.graph().dom().contains(k));
                    assert(sb.graph().dom().contains(k));
                    assert(sb.graph()[k] == s0.graph()[k]);
                }
            }
            if crossing {
                let (hi, lo) = match self.swap_halves(x, y, k) {
                    Some(p) => p,
                    None => {
                        proof {
                            lemma_grows_trans(&s0, &sb, self);
                        }
                        return None;
                    },
                };
                proof {
                    let g = self.graph();
                    lemma_grows_trans(&s0, &sb, self);
                    lemma_fresh_trans(s0.graph(), sb.graph(), g, lv, x, l);
                    assert forall|id: u32| #[trigger] rec_map(recs@, y).dom().contains(id) implies swap_ok(
                        g,
                        lv,
                        x,
                        y,
                        l,
                        id,
                        rec_map(recs@, y)[id],
                    ) by {
                        lemma_swap_ok_grow(sb.graph(), g, lv, x, y, l, id, rec_map(recs@, y)[id]);
                    }
                }
                let ghost before = recs@;
                recs.push((k, hi, lo));
                proof {
                    assert(recs@.drop_last() =~= before);
                    assert(rec_map(recs@, y) == rec_map(before, y).insert(k, (y, hi, lo)));
                }
            } else {
                proof {
                    lemma_grows_refl(self);
                }
            }
            proof {
                lemma_prefix_push(keys@, j as int);
            }
            j = j + 1;
        }
        proof {
            assert(keys@.subrange(0, keys@.len() as int) =~= keys@);
            lemma_fresh_crossing(s0.graph(), self.graph(), lv, x, l);
        }
        Some(recs)
    }
}

/// What `rec_map` holds: the listed identifiers, each with its own rewrite.
pub proof fn lemma_rec_map(recs: Seq<(u32, u32, u32)>, y: u32)
    requires
        forall|p: int, q: int| 0 <= p < q < recs.len() ==> recs[p].0 != recs[q].0,
    ensures
        forall|id: u32| #[trigger]
            rec_map(recs, y).dom().contains(id) <==> exists|q: int| 0 <= q < recs.len() && recs[q].0 == id,
        forall|q: int|
            0 <= q < recs.len() ==> rec_map(recs, y)[#[trigger] recs[q].0] == (y, recs[q].1, recs[q].2),
    decreases recs.len(),
{
    if recs.len() > 0 {
        let init = recs.drop_last();
        lemma_rec_map(init, y);
        let n = recs.len() - 1;
        assert forall|id: u32| #[trigger]
            rec_map(recs, y).dom().contains(id) <==> exists|q: int| 0 <= q < recs.len() && recs[q].0 == id by {
            if rec_map(init, y).dom().contains(id) {
                let q = choose|q: int| 0 <= q < init.len() && init[q].0 == id;
                assert(recs[q].0 == id);
            }
            if exists|q: int| 0 <= q < recs.len() && recs[q].0 == id {
                let q = choose|q: int| 0 <= q < recs.len() && recs[q].0 == id;
                if q < n {
                    assert(init[q].0 == id);
                }
            }
        }
        assert forall|q: int| 0 <= q < recs.len() implies rec_map(recs, y)[#[trigger] recs[q].0] == (
            y,
            recs[q].1,
            recs[q].2,
        ) by {
            if q < n {
                assert(init[q] == recs[q]);
                assert(recs[q].0 != recs[n].0);
            }
        }
    }
}

impl Inner {
    /// Rewrite in place each listed node into the node on `y` it becomes, keeping the unique
    /// table in step.
    fn swap_apply(&mut self, y: u32, recs: &Vec<(u32, u32, u32)>)
        requires
            tables_ok(old(self).graph(), old(self).uniq(), old(self).next_node),
            injective(old(self).graph()),
            injective(old(self).graph().union_prefer_right(rec_map(recs@, y))),
            forall|p: int, q: int| 0 <= p < q < recs@.len() ==> recs@[p].0 != recs@[q].0,
            forall|id: u32| #[trigger]
                rec_map(recs@, y).dom().contains(id) ==> old(self).graph().dom().contains(id)
                    && old(self).graph()[id].0 != y,
        ensures
            final(self).graph() == old(self).graph().union_prefer_right(rec_map(recs@, y)),
            tables_ok(final(self).graph(), final(self).uniq(), final(self).next_node),
            final(self).order == old(self).order,
            final(self).next_node == old(self).next_node,
            final(self).ite_cache == old(self).ite_cache,
    {
        let ghost g1 = self.graph();
        let ghost m = rec_map(recs@, y);
        let ghost g2 = g1.union_prefer_right(m);
        let ghost mut done: Set<u32> = Set::empty();
        proof {
            lemma_rec_map(recs@, y);
            assert(g1.union_prefer_right(m.restrict(done)) =~= g1);
        }
        let mut p: usize = 0;
        while p < recs.len()
            invariant
                g1 == old(self).graph(),
                m == rec_map(recs@, y),
                g2 == g1.union_prefer_right(m),
                injective(g2),
                forall|a: int, b: int| 0 <= a < b < recs@.len() ==> recs@[a].0 != recs@[b].0,
                forall|id: u32| #[trigger]
                    m.dom().contains(id) <==> exists|q: int| 0 <= q < recs@.len() && recs@[q].0 == id,
                forall|q: int|
                    0 <= q < recs@.len() ==> m[#[trigger] recs@[q].0] == (y, recs@[q].1, recs@[q].2),
                forall|id: u32| #[trigger]
                    m.dom().contains(id) ==> g1.dom().contains(id) && g1[id].0 != y,
                0 <= p <= recs@.len(),
                forall|id: u32| #[trigger]
                    done.contains(id) <==> exists|q: int| 0 <= q < p && recs@[q].0 == id,
                self.graph() == g1.union_prefer_right(m.restrict(done)),
                tables_ok(self.graph(), self.uniq(), self.next_node),
                self.order == old(self).order,
                self.next_node == old(self).next_node,
                self.ite_cache == old(self).ite_cache,
            decreases recs@.len() - p,
        {
            let r = recs[p];
            let id = r.0;
            let nt = (y, r.1, r.2);
            let ghost g = self.graph();
            let ghost u = self.uniq();
            proof {
                assert(m[recs@[p as int].0] == nt);
                assert(m.dom().contains(id));
                assert(!done.contains(id)) by {
                    if done.contains(id) {
                        let q = choose|q: int| 0 <= q < p && recs@[q].0 == id;
                        assert(recs@[q].0 != recs@[p as int].0);
                    }
                }
                assert(g.dom().contains(id));
                assert(g[id] == g1[id]);
            }
            let ot = match node_table_get(&self.nodes, id) {
                Some(t) => t,
                None => {
                    proof {
                        assert(false);
                    }
                    (0, 0, 0)
                },
            };
            node_table_insert(&mut self.nodes, id, nt);
            triple_table_remove(&mut self.unique, ot);
            triple_table_insert(&mut self.unique, nt, id);
            proof {
                let ng = self.graph();
                let nu = self.uniq();
                assert(ng == g.insert(id, nt));
                assert(nu == u.remove(ot).insert(nt, id));
                assert(g2[id] == nt);
                // No other stored node carries the new triple.
                assert forall|i: u32| g.dom().contains(i) && i != id implies #[trigger] g[i] != nt by {
                    assert(g2.dom().contains(i));
                    if done.contains(i) {
                        assert(g[i] == m[i]);
                        assert(g2[i] == m[i]);
                    } else if m.dom().contains(i) {
                        assert(g[i] == g1[i]);
                    } else {
                        assert(g[i] == g1[i]);
                        assert(g2[i] == g1[i]);
                    }
                }
                assert forall|i: u32| #[trigger] ng.dom().contains(i) implies nu.dom().contains(ng[i])
                    && nu[ng[i]] == i && i < self.next_node by {
                    if i != id {
                        assert(g.dom().contains(i));
                        assert(u[g[i]] == i);
                        assert(g[i] != ot) by {
                            if g[i] == ot {
                                assert(u[g[id]] == id);
                            }
                        }
                    }
                }
                assert forall|k: (u32, u32, u32)| #[trigger] nu.dom().contains(k) implies ng.dom().contains(
                    nu[k],
                ) && ng[nu[k]] == k by {
                    if k != nt {
                        assert(u.dom().contains(k));
                        assert(g[u[k]] == k);
                        assert(u[k] != id);
                    }
                }
                done = done.insert(id);
                assert(ng =~= g1.union_prefer_right(m.restrict(done)));
                assert forall|i: u32| #[trigger]
                    done.contains(i) <==> exists|q: int| 0 <= q < p + 1 && recs@[q].0 == i by {
                    if i == id {
                        assert(recs@[p as int].0 == i);
                    }
                }
            }
            p = p + 1;
        }
        proof {
            assert(m.restrict(done) =~= m);
        }
    }

    /// Exchange the variable at `level` with the one right below it, rewriting the nodes in
    /// place so that every identifier keeps its function. Nothing changes when no variable sits
    /// below `level`. `false` when the identifiers ran out: the order is then unchanged, and
    /// the store has only gained nodes.
    pub fn swap(&mut self, level: u32) -> (r: bool)
        requires
            old(self).wf(),
            level < old(self).levels().len(),
        ensures
            final(self).wf(),
            final(self).keeps(*old(self)),
            final(self).next_node >= old(self).next_node,
            final(self).counted(*old(self)),
            old(self).graph().dom().subset_of(final(self).graph().dom()),
            r ==> final(self).levels() == swapped_levels(old(self).levels(), level),
            !r ==> final(self).levels() == old(self).levels() && final(self).next_node == u32::MAX,
    {
        proof {
            self.order.lemma_wf();
        }
        let ghost s0 = *self;
        let ghost lv = self.levels();
        let ghost l: nat = level as nat;
        if level + 1 >= self.order.size() {
            proof {
                lemma_grows_refl(self);
                lemma_grows_keeps(self, self);
                assert(swapped_levels(lv, level) =~= lv);
            }
            return true;
        }
        let x = match self.order.var_at(Level(level)) {
            Some(v) => v.0,
            None => {
                proof {
                    assert(false);
                }
                return true;
            },
        };
        let y = match self.order.var_at(Level(level + 1)) {
            Some(v) => v.0,
            None => {
                proof {
                    assert(false);
                }
                return true;
            },
        };
        let recs = match self.swap_plan(x, y) {
            Some(recs) => recs,
            None => {
                proof {
                    lemma_grows_keeps(&s0, self);
                }
                return false;
            },
        };
        let ghost s1 = *self;
        let ghost g1 = s1.graph();
        let ghost m = rec_map(recs@, y);
        self.order.swap(VarID(x), VarID(y));
        let ghost lv2 = self.levels();
        proof {
            self.order.lemma_wf();
            assert(lv2 == lv.update(x as int, (l + 1) as u32).update(y as int, l as u32));
            lemma_injective(&s1);
            lemma_swap_graph(g1, lv, lv2, m, x, y, l);
            assert forall|id: u32| #[trigger] m.dom().contains(id) implies g1.dom().contains(id)
                && g1[id].0 != y by {
                assert(crosses(g1, lv, id, x, l));
            }
        }
        self.swap_apply(y, &recs);
        triple_table_clear(&mut self.ite_cache);
        proof {
            let g2 = self.graph();
            assert(g2 == g1.union_prefer_right(m));
            assert(g2.dom() == g1.dom());
            assert forall|id: u32| s0.next_node <= id < self.next_node implies #[trigger] g2.dom().contains(
                id,
            ) by {
                assert(g1.dom().contains(id));
            }
            assert forall|id: u32| s0.graph().dom().contains(id) implies #[trigger] g2.dom().contains(id) by {
                assert(g1.dom().contains(id));
            }
            lemma_swap_functions(g1, lv, lv2, m, x, y, l);
            lemma_grows_keeps(&s0, &s1);
            assert(self.cache().dom() =~= Set::<(u32, u32, u32)>::empty());
            assert(self.wf());
            assert forall|id: u32| #[trigger] s0.live(id) implies self.live(id) && same_function(
                s0.graph(),
                s0.levels(),
                self.graph(),
                self.levels(),
                id,
            ) by {
                assert(s1.live(id));
                assert forall|a: spec_fn(u32) -> bool| #[trigger]
                    eval(self.graph(), self.levels(), id, a) == eval(s0.graph(), s0.levels(), id, a) by {
                    assert(eval(g2, lv2, id, a) == eval(g1, lv, id, a));
                    assert(eval(g1, lv, id, a) == eval(s0.graph(), lv, id, a));
                }
            }
            assert forall|v: int| 0 <= v < lv.len() implies #[trigger] lv2[v] == swapped_levels(lv, level)[v] by {
                if v != x && v != y {
                    assert(lv[v] != lv[x as int]);
                    assert(lv[v] != lv[y as int]);
                }
            }
            assert(lv2 =~= swapped_levels(lv, level));
        }
        true
    }
}

/// The levels after exchanging the variables at `level` and `level + 1`.
pub open spec fn swapped_levels(lv: Seq<u32>, level: u32) -> Seq<u32> {
    lv.map_values(
        |v: u32|
            if v == level && level + 1 < lv.len() {
                (level + 1) as u32
            } else if v == level + 1 {
                level
            } else {
                v
            },
    )
}

} // verus!
