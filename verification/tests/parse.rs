use formally::parse::Name;

fn named(singular: &str, plural: &str) -> Name {
    Name::Name { singular: singular.to_string(), plural: plural.to_string() }
}

#[test]
fn display_picks_the_form() {
    assert_eq!(Name::Unnamed.display(1), "element");
    assert_eq!(Name::Unnamed.display(2), "elements");
    assert_eq!(Name::Unnamed.display(0), "elements");
    let n = named("integer number", "integer numbers");
    assert_eq!(n.display(1), "integer number");
    assert_eq!(n.display(3), "integer numbers");
}

#[test]
fn display_joins_disjunctions() {
    let two = Name::Or { names: vec![named("digit", "digits"), named("letter", "letters")] };
    assert_eq!(two.display(1), "digit or letter");
    assert_eq!(two.display(2), "digits or letters");
    let three = Name::Or { names: vec![named("a", "as"), named("b", "bs"), named("c", "cs")] };
    assert_eq!(three.display(1), "a, or b, or c");
    let one = Name::Or { names: vec![named("a", "as")] };
    assert_eq!(one.display(1), "a");
    let none = Name::Or { names: vec![] };
    assert_eq!(none.display(1), "");
}

#[test]
fn or_stays_flat() {
    let a = named("a", "as");
    let b = named("b", "bs");
    let c = named("c", "cs");
    let d = named("d", "ds");
    assert_eq!(a.or(&b), Name::Or { names: vec![named("a", "as"), named("b", "bs")] });
    let ab = a.or(&b);
    let cd = c.or(&d);
    assert_eq!(
        ab.or(&cd),
        Name::Or { names: vec![named("a", "as"), named("b", "bs"), named("c", "cs"), named("d", "ds")] }
    );
    assert_eq!(ab.or(&c), Name::Or { names: vec![named("a", "as"), named("b", "bs"), named("c", "cs")] });
    assert_eq!(c.or(&ab), Name::Or { names: vec![named("c", "cs"), named("a", "as"), named("b", "bs")] });
    assert_eq!(a.duplicate(), a);
    assert_eq!(ab.duplicate(), ab);
}
