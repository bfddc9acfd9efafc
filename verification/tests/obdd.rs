use std::cmp::Ordering;
use formally::obdd::order::Level;
use formally::obdd::model::ModelIterator;
use formally::obdd::{exists_vars, forall_vars, BDD, Lit, Manager, Node, Tree, Var};

fn pos(manager: &mut Manager, var: Var) -> BDD {
    manager.lit(Lit::Positive(var)).unwrap()
}

fn neg(manager: &mut Manager, var: Var) -> BDD {
    manager.lit(Lit::Negative(var)).unwrap()
}

fn is_true(manager: &Manager, b: BDD) -> bool {
    b.eq_bool(manager, true)
}

fn is_false(manager: &Manager, b: BDD) -> bool {
    b.eq_bool(manager, false)
}

#[test]
fn obdd_obdds() {
    let mut manager = Manager::new();
    let p = manager.add_var();
    let q = manager.add_var();

    let pb = pos(&mut manager, p);
    let not_p = neg(&mut manager, p);
    let qb = pos(&mut manager, q);
    let not_q = neg(&mut manager, q);

    let tautology = manager.or(&vec![pb, not_p]).unwrap();
    let p_q = formally::obdd::implies(&mut manager, pb, qb).unwrap();
    let premise = manager.and(&vec![p_q, pb]).unwrap();
    let ponens = formally::obdd::implies(&mut manager, premise, qb).unwrap();
    let not = manager.and(&vec![premise, not_q]).unwrap();
    let something = manager.or(&vec![pb, qb]).unwrap();

    assert!(is_true(&manager, tautology));
    assert!(is_true(&manager, ponens));
    assert!(is_false(&manager, not));
    assert!(!is_true(&manager, something));
    assert!(!is_false(&manager, something));
}

#[test]
fn mod_order() {
    let mut manager = Manager::new();

    let first = manager.add_var();
    let third = manager.add_var();
    assert!(first.level(&manager) < third.level(&manager));

    let middle = manager.add_var_after(first);
    assert!(first.level(&manager) < middle.level(&manager));
    assert!(middle.level(&manager) < third.level(&manager));

    let seq = manager.add_vars_after(third, 4);

    for pair in seq.windows(2) {
        let (v1, v2) = (pair[0], pair[1]);
        assert!(third.level(&manager) < v1.level(&manager));
        assert!(v1.level(&manager) < v2.level(&manager));
    }

    manager.swap_adjacent(first).unwrap();
    assert!(middle.level(&manager) < first.level(&manager));

    manager.swap_adjacent(first).unwrap();
    assert!(third.level(&manager) < first.level(&manager));

    for var in manager.vars() {
        assert_eq!(Some(var), manager.var_at(var.level(&manager)))
    }

    manager.swap(first, middle).unwrap();
    assert!(first.level(&manager) < middle.level(&manager));
    assert!(third.level(&manager) < middle.level(&manager));
}

#[test]
fn mod_obdds() {
    let mut manager = Manager::new();
    let p = manager.add_var();
    let q = manager.add_var();

    // Three independent scenarios on one manager, one after the other.
    {
        let pb = pos(&mut manager, p);
        let not_p = neg(&mut manager, p);
        let qb = pos(&mut manager, q);
        let not_q = neg(&mut manager, q);

        let tautology = manager.or(&vec![pb, not_p]).unwrap();
        let p_q = formally::obdd::implies(&mut manager, pb, qb).unwrap();
        let premise = manager.and(&vec![p_q, pb]).unwrap();
        let ponens = formally::obdd::implies(&mut manager, premise, qb).unwrap();
        let not = manager.and(&vec![premise, not_q]).unwrap();
        let something = manager.and(&vec![pb, qb]).unwrap();
        let p_xor_q = manager.xor(&vec![pb, qb]).unwrap();
        let xor = manager.and(&vec![p_xor_q, something]).unwrap();

        manager.reclaim(&vec![tautology, ponens, not, something, xor]);

        assert!(is_true(&manager, tautology));
        assert!(is_true(&manager, ponens));
        assert!(is_false(&manager, not));
        assert!(!is_true(&manager, something));
        assert!(!is_false(&manager, something));
        assert!(is_false(&manager, xor));
    }

    {
        let pb = pos(&mut manager, p);
        let qb = pos(&mut manager, q);
        let something = manager.and(&vec![pb, qb]).unwrap();

        manager.swap(p, q).unwrap();

        let pb = pos(&mut manager, p);
        let qb = pos(&mut manager, q);
        let p_xor_q = manager.xor(&vec![pb, qb]).unwrap();
        let xor = manager.and(&vec![p_xor_q, something]).unwrap();

        assert!(!is_true(&manager, something));
        assert!(!is_false(&manager, something));
        assert!(is_false(&manager, xor));
    }

    {
        let w = manager.add_var();
        let pb = pos(&mut manager, p);
        let qb = pos(&mut manager, q);
        let wb = pos(&mut manager, w);
        let q_or_w = manager.or(&vec![qb, wb]).unwrap();
        let something = manager.and(&vec![pb, q_or_w]).unwrap();

        manager.swap(p, w).unwrap();

        let ep = exists_vars(&mut manager, &vec![p], something).unwrap();
        let ap = forall_vars(&mut manager, &vec![p], something).unwrap();

        assert!(!is_true(&manager, ep));
        assert!(!is_false(&manager, ep));
        assert!(is_false(&manager, ap));
    }
}

#[test]
fn constants_and_literals() {
    let mut manager = Manager::new();
    let top = manager.top();
    let bottom = manager.bottom();
    assert!(is_true(&manager, top));
    assert!(is_false(&manager, bottom));
    assert_eq!(top.tree(&manager), Tree::Terminal(true));
    assert_eq!(bottom.tree(&manager), Tree::Terminal(false));

    let p = manager.add_var();
    let pb = pos(&mut manager, p);
    match pb.tree(&manager) {
        Tree::Node(node) => {
            assert_eq!(node.var, p);
            assert_eq!(node.high, top);
            assert_eq!(node.low, bottom);
        }
        Tree::Terminal(_) => panic!("a literal is not constant"),
    }
    let not_p = manager.not(pb).unwrap();
    assert_eq!(not_p, neg(&mut manager, p));
    assert_eq!(Lit::Positive(p).not(), Lit::Negative(p));
    assert_eq!(Lit::Negative(p).var(), p);
    assert!(!Lit::Negative(p).value());
}

#[test]
fn canonical_results() {
    let mut manager = Manager::new();
    let p = manager.add_var();
    let q = manager.add_var();
    let pb = pos(&mut manager, p);
    let qb = pos(&mut manager, q);

    // Two ways of writing the same function give the same diagram.
    let pq = manager.and(&vec![pb, qb]).unwrap();
    let qp = manager.and(&vec![qb, pb]).unwrap();
    assert_eq!(pq, qp);
    let not_p = manager.not(pb).unwrap();
    let not_q = manager.not(qb).unwrap();
    let either_not = manager.or(&vec![not_p, not_q]).unwrap();
    let de_morgan = manager.not(either_not).unwrap();
    assert_eq!(de_morgan, pq);

    // `ite` agrees with its definition through `and` and `or`.
    let top = manager.top();
    let sel = manager.ite(pb, qb, top).unwrap();
    let imp = formally::obdd::implies(&mut manager, pb, qb).unwrap();
    assert_eq!(sel, imp);

    // Exclusive disjunction is true on an odd number of arguments.
    let x3 = manager.xor(&vec![pb, pb, pb]).unwrap();
    assert_eq!(x3, pb);
    let x2 = manager.xor(&vec![pb, pb]).unwrap();
    assert!(is_false(&manager, x2));
    let empty_and = manager.and(&vec![]).unwrap();
    assert!(is_true(&manager, empty_and));
    let empty_or = manager.or(&vec![]).unwrap();
    assert!(is_false(&manager, empty_or));
}

#[test]
fn restriction_and_quantifiers() {
    let mut manager = Manager::new();
    let p = manager.add_var();
    let q = manager.add_var();
    let pb = pos(&mut manager, p);
    let qb = pos(&mut manager, q);
    let pq = manager.and(&vec![pb, qb]).unwrap();

    let with_p = manager.restrict(Lit::Positive(p), pq).unwrap();
    assert_eq!(with_p, qb);
    let without_p = manager.restrict(Lit::Negative(p), pq).unwrap();
    assert!(is_false(&manager, without_p));

    let some_p = manager.exists_var(p, pq).unwrap();
    assert_eq!(some_p, qb);
    let all_p = manager.forall_var(p, pq).unwrap();
    assert!(is_false(&manager, all_p));

    let p_or_q = manager.or(&vec![pb, qb]).unwrap();
    let some_both = exists_vars(&mut manager, &vec![p, q], p_or_q).unwrap();
    assert!(is_true(&manager, some_both));
    let all_both = forall_vars(&mut manager, &vec![p, q], p_or_q).unwrap();
    assert!(is_false(&manager, all_both));
}

#[test]
fn swaps_keep_functions() {
    let mut manager = Manager::new();
    let vars = manager.add_vars(3);
    let (a, b, c) = (vars[0], vars[1], vars[2]);
    let ab = {
        let x = pos(&mut manager, a);
        let y = pos(&mut manager, b);
        manager.and(&vec![x, y]).unwrap()
    };
    let abc = {
        let z = pos(&mut manager, c);
        manager.or(&vec![ab, z]).unwrap()
    };

    manager.swap(a, c).unwrap();
    assert_eq!(a.level(&manager), Level(2));
    assert_eq!(c.level(&manager), Level(0));
    assert_eq!(b.level(&manager), Level(1));

    // The diagrams built before still denote the same functions.
    let x = pos(&mut manager, a);
    let y = pos(&mut manager, b);
    let z = pos(&mut manager, c);
    let ab2 = manager.and(&vec![y, x]).unwrap();
    let abc2 = manager.or(&vec![z, ab2]).unwrap();
    assert_eq!(ab, ab2);
    assert_eq!(abc, abc2);

    // The last variable has no successor: swapping it is a no-op.
    manager.swap_adjacent(a).unwrap();
    assert_eq!(a.level(&manager), Level(2));
    assert_eq!(a.next(&manager), None);
    assert_eq!(c.next(&manager), Some(b));
}

#[test]
fn make_and_reclaim() {
    let mut manager = Manager::new();
    let p = manager.add_var();
    let q = manager.add_var();
    let top = manager.top();
    let bottom = manager.bottom();
    let qb = pos(&mut manager, q);
    let made = manager.make(Node { var: p, high: qb, low: bottom }).unwrap();
    let pb = pos(&mut manager, p);
    let pq = manager.and(&vec![pb, qb]).unwrap();
    assert_eq!(made, pq);
    // A node with equal branches is its branch.
    let same = manager.make(Node { var: p, high: top, low: top }).unwrap();
    assert_eq!(same, top);

    manager.reclaim(&vec![pq]);
    assert!(!is_true(&manager, pq));
    match pq.tree(&manager) {
        Tree::Node(node) => {
            assert_eq!(node.var, p);
            assert_eq!(node.low, bottom);
            assert_eq!(node.high.tree(&manager), Tree::Node(Node { var: q, high: top, low: bottom }));
        }
        Tree::Terminal(_) => panic!("p and q is not constant"),
    }
    assert_eq!(manager.n_vars(), 2);
}

#[test]
fn models_in_walk_order() {

    let mut manager = Manager::new();
    let p = manager.add_var();
    let q = manager.add_var();
    let pb = pos(&mut manager, p);
    let qb = pos(&mut manager, q);
    let f = manager.or(&vec![pb, qb]).unwrap();

    let mut models = ModelIterator::new(&manager, f);
    let first = models.next(&manager).unwrap();
    assert_eq!(first.lits(), vec![Lit::Negative(p), Lit::Positive(q)]);
    let second = models.next(&manager).unwrap();
    assert_eq!(second.lits(), vec![Lit::Positive(p)]);
    assert!(models.next(&manager).is_none());
    assert!(models.next(&manager).is_none());

    let bottom = manager.bottom();
    let mut none = ModelIterator::new(&manager, bottom);
    assert!(none.next(&manager).is_none());

    let top = manager.top();
    let mut all = ModelIterator::new(&manager, top);
    assert_eq!(all.next(&manager).unwrap().lits(), vec![]);
    assert!(all.next(&manager).is_none());
}

#[test]
fn model_get_set_pop() {

    let mut manager = Manager::new();
    let p = manager.add_var();
    let q = manager.add_var();
    let r = manager.add_var();
    let not_p = neg(&mut manager, p);
    let qb = pos(&mut manager, q);
    let f = manager.and(&vec![not_p, qb]).unwrap();

    let mut models = ModelIterator::new(&manager, f);
    let mut model = models.next(&manager).unwrap();
    assert_eq!(model.get(&manager, p), Some(false));
    assert_eq!(model.get(&manager, q), Some(true));
    assert_eq!(model.get(&manager, r), None);

    model.set(&manager, r, Some(true));
    assert_eq!(model.lits(), vec![Lit::Negative(p), Lit::Positive(q), Lit::Positive(r)]);
    model.set(&manager, p, None);
    assert_eq!(model.lits(), vec![Lit::Positive(q), Lit::Positive(r)]);
    model.set(&manager, p, Some(true));
    assert_eq!(model.lits(), vec![Lit::Positive(p), Lit::Positive(q), Lit::Positive(r)]);
    model.set(&manager, q, Some(false));
    assert_eq!(model.get(&manager, q), Some(false));
    model.pop();
    assert_eq!(model.lits(), vec![Lit::Positive(p), Lit::Negative(q)]);
}

#[test]
fn walk_continues_while_nodes_are_added() {
    let mut manager = Manager::new();
    let p = manager.add_var();
    let q = manager.add_var();
    let pb = pos(&mut manager, p);
    let qb = pos(&mut manager, q);
    let f = manager.xor(&vec![pb, qb]).unwrap();

    let mut models = ModelIterator::new(&manager, f);
    let first = models.next(&manager).unwrap();
    assert_eq!(first.lits(), vec![Lit::Negative(p), Lit::Positive(q)]);

    // Building more diagrams only adds nodes; the walk goes on.
    let g = manager.and(&vec![pb, qb]).unwrap();
    assert!(!is_false(&manager, g));

    let second = models.next(&manager).unwrap();
    assert_eq!(second.lits(), vec![Lit::Positive(p), Lit::Negative(q)]);
    assert!(models.next(&manager).is_none());
}

#[test]
fn reclaim_forgets_unreachable_nodes() {
    let mut manager = Manager::new();
    let p = manager.add_var();
    let q = manager.add_var();
    let pb = pos(&mut manager, p);
    let qb = pos(&mut manager, q);
    let kept = manager.and(&vec![pb, qb]).unwrap();
    let dropped = manager.or(&vec![pb, qb]).unwrap();

    // Before reclaiming, building the same function gives back the same diagram.
    let again = manager.or(&vec![pb, qb]).unwrap();
    assert_eq!(again, dropped);

    manager.reclaim(&vec![kept]);

    // Afterwards its node is gone: the same function is built anew, under a fresh identifier.
    let pb = pos(&mut manager, p);
    let qb = pos(&mut manager, q);
    let rebuilt = manager.or(&vec![pb, qb]).unwrap();
    assert_ne!(rebuilt, dropped);
    assert!(!is_true(&manager, rebuilt));
    // What was kept is found again.
    let kept_again = manager.and(&vec![pb, qb]).unwrap();
    assert_eq!(kept_again, kept);
}

#[test]
fn default_manager_is_empty() {
    let mut manager = Manager::default();
    assert_eq!(manager.n_vars(), 0);
    assert_eq!(manager.var_at(Level(0)), None);
    let v = manager.add_var();
    assert_eq!(manager.var_at(Level(0)), Some(v));
    assert_eq!(v.index(), 0);
}

#[test]
fn models_of_constants_and_literals() {
    let mut manager = Manager::new();
    let p = manager.add_var();
    let top = manager.top();
    let mut models = ModelIterator::new(&manager, top);
    assert_eq!(models.next(&manager).unwrap().lits(), vec![]);
    assert!(models.next(&manager).is_none());
    let bottom = manager.bottom();
    let mut models = ModelIterator::new(&manager, bottom);
    assert!(models.next(&manager).is_none());
    let pb = pos(&mut manager, p);
    let mut models = ModelIterator::new(&manager, pb);
    assert_eq!(models.next(&manager).unwrap().lits(), vec![Lit::Positive(p)]);
    assert!(models.next(&manager).is_none());
    let nb = neg(&mut manager, p);
    let mut models = ModelIterator::new(&manager, nb);
    assert_eq!(models.next(&manager).unwrap().lits(), vec![Lit::Negative(p)]);
    assert!(models.next(&manager).is_none());
}

#[test]
fn swap_exchanges_two_variables() {
    let mut manager = Manager::new();
    let vars = manager.add_vars(4);
    manager.swap(vars[0], vars[3]).unwrap();
    assert_eq!(vars[3].level(&manager), Level(0));
    assert_eq!(vars[1].level(&manager), Level(1));
    assert_eq!(vars[2].level(&manager), Level(2));
    assert_eq!(vars[0].level(&manager), Level(3));
}

#[test]
fn models_are_disjoint() {
    let mut manager = Manager::new();
    let p = manager.add_var();
    let q = manager.add_var();
    let r = manager.add_var();
    let pb = pos(&mut manager, p);
    let qb = pos(&mut manager, q);
    let rb = neg(&mut manager, r);
    let f = manager.or(&vec![pb, qb, rb]).unwrap();
    let mut models = ModelIterator::new(&manager, f);
    let mut all: Vec<Vec<Lit>> = Vec::new();
    while let Some(m) = models.next(&manager) {
        all.push(m.lits());
    }
    assert!(all.len() >= 2);
    for i in 0..all.len() {
        for j in 0..all.len() {
            if i != j {
                let clash = all[i].iter().any(|a| all[j].iter().any(|b| a.var() == b.var() && a.value() != b.value()));
                assert!(clash, "models {:?} and {:?} overlap", all[i], all[j]);
            }
        }
    }
}

#[test]
fn handles_carry_their_manager() {
    let mut m1 = Manager::new();
    let mut m2 = Manager::new();
    assert_ne!(m1.top(), m2.top());
    let p1 = m1.add_var();
    let p2 = m2.add_var();
    assert_eq!(p1.index(), p2.index());
    assert_ne!(p1, p2);
    assert_eq!(m1.top(), m1.top());
}

#[test]
fn reinterning_a_node_gives_it_back() {
    let mut manager = Manager::new();
    let p = manager.add_var();
    let top = manager.top();
    let bottom = manager.bottom();
    let first = manager.make(Node { var: p, high: top, low: bottom }).unwrap();
    let again = manager.make(Node { var: p, high: top, low: bottom }).unwrap();
    assert_eq!(first, again);
    assert_eq!(first, pos(&mut manager, p));
}

#[test]
fn variables_compare_by_level() {
    let mut manager = Manager::new();
    let vars = manager.add_vars(3);
    assert_eq!(vars[0].compare(vars[2], &manager), Ordering::Less);
    assert_eq!(vars[2].compare(vars[0], &manager), Ordering::Greater);
    assert_eq!(vars[1].compare(vars[1], &manager), Ordering::Equal);
    manager.swap(vars[0], vars[2]).unwrap();
    assert_eq!(vars[0].compare(vars[2], &manager), Ordering::Greater);
}
