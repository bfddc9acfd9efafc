use formally::obdd::order::{Level, VarID};
use formally::obdd::vars::Order;

#[test]
fn vars_order() {
    let mut order = Order::new();
    let first = order.var();
    let second = order.var_after(Some(first));

    assert!(order.position(Some(first)) < order.position(Some(second)));

    let middle = order.var_after(Some(first));
    assert!(order.position(Some(first)) < order.position(Some(middle)));
    assert!(order.position(Some(middle)) < order.position(Some(second)));

    let max = order.var();
    assert!(order.position(Some(second)) < order.position(Some(max)));
}

#[test]
fn positions_are_midpoints() {
    let mut order = Order::new();
    assert_eq!(order.max(), None);
    assert_eq!(order.position(None).0, 0);
    let first = order.var();
    assert_eq!(order.position(Some(first)).0, u64::MAX / 2);
    assert_eq!(order.max(), Some(first));
    let before = order.var_after(None);
    assert_eq!(order.position(Some(before)).0, u64::MAX / 4);
    assert_eq!(order.max(), Some(first));
}

#[test]
fn literals() {
    let mut order = Order::new();
    let v = order.var();
    let positive = formally::obdd::vars::Lit::from_var(v);
    let negative = v.not();
    assert!(positive.value());
    assert!(!negative.value());
    assert_eq!(negative.var(), v);
    assert_eq!(positive.not(), negative);
}

#[test]
fn levels_and_ids() {
    let l = Level(3);
    assert_eq!(l.index(), 3);
    assert_eq!(l.into_index(), 3);
    assert_eq!(l.offset(2), Level(5));
    assert_eq!(Level(2).distance(Level(5)), -3);
    let v = VarID::from_index(7);
    assert_eq!(v.index(), 7);
    assert_eq!(v.into_index(), 7);
}

#[test]
fn default_order_is_empty() {
    let mut order = Order::default();
    assert_eq!(order.max(), None);
    let v = order.var();
    assert_eq!(order.max(), Some(v));
}

#[test]
fn later_variables_take_midpoints() {
    let mut order = Order::new();
    let a = order.var();
    let b = order.var();
    let c = order.var_after(Some(a));
    let h = u64::MAX / 2;
    assert_eq!(order.position(Some(a)).0, h);
    assert_eq!(order.position(Some(b)).0, h + (u64::MAX - h) / 2);
    assert_eq!(order.position(Some(c)).0, h + (order.position(Some(b)).0 - h) / 2);
    assert_eq!(order.max(), Some(b));
}

#[test]
fn double_negation() {
    let mut order = Order::new();
    let v = order.var();
    let positive = formally::obdd::vars::Lit::from_var(v);
    assert_eq!(positive.not().not(), positive);
    assert_eq!(v.not().not().not(), v.not());
    assert_eq!(positive.var(), v);
    assert!(positive.value());
    assert_eq!(v.not().var(), v);
    assert!(!v.not().value());
}
