//! Names of parsers, as diagnostics show them.

use vstd::prelude::*;
use vstd::string::StringExecFns;

verus! {

/// The name of a parser, shown by diagnostics.
#[derive(Debug, PartialEq, Eq)]
pub enum Name {
    /// The parser has no set name.
    Unnamed,
    /// The parser has a name with a singular and a plural form.
    Name { singular: String, plural: String },
    /// The parser is a disjunction of other parsers, each with its own name.
    Or { names: Vec<Name> },
}

/// The model of a [Name].
pub enum NameView {
    Unnamed,
    Name { singular: Seq<char>, plural: Seq<char> },
    Or { names: Seq<NameView> },
}

/// The model of a name.
pub open spec fn name_view(n: Name) -> NameView
    decreases n,
{
    match n {
        Name::Unnamed => NameView::Unnamed,
        Name::Name { singular, plural } => NameView::Name { singular: singular@, plural: plural@ },
        Name::Or { names } => NameView::Or { names: names_view(names@) },
    }
}

/// The models of a sequence of names.
pub open spec fn names_view(names: Seq<Name>) -> Seq<NameView>
    decreases names,
{
    if names.len() == 0 {
        Seq::empty()
    } else {
        proof {
            assert(decreases_to!(names => names.drop_last()));
            assert(decreases_to!(names => names.last()));
        }
        names_view(names.drop_last()).push(name_view(names.last()))
    }
}

impl View for Name {
    type V = NameView;

    open spec fn view(&self) -> NameView {
        name_view(*self)
    }
}

/// The text of a name for `cardinality` elements: the singular form for one, the plural form
/// otherwise; a disjunction joins its names with `or`.
pub open spec fn name_text(n: NameView, cardinality: usize) -> Seq<char>
    decreases n,
{
    match n {
        NameView::Unnamed => if cardinality == 1 {
            "element"@
        } else {
            "elements"@
        },
        NameView::Name { singular, plural } => if cardinality == 1 {
            singular
        } else {
            plural
        },
        NameView::Or { names } => joined(
            names,
            cardinality,
            if names.len() == 2 {
                " or "@
            } else {
                ", or "@
            },
        ),
    }
}

/// The texts of `names` for `cardinality` elements, separated by `sep`.
pub open spec fn joined(names: Seq<NameView>, cardinality: usize, sep: Seq<char>) -> Seq<char>
    decreases names,
{
    if names.len() == 0 {
        Seq::empty()
    } else if names.len() == 1 {
        name_text(names[0], cardinality)
    } else {
        proof {
            assert(decreases_to!(names => names.drop_last()));
            assert(decreases_to!(names => names.last()));
        }
        joined(names.drop_last(), cardinality, sep) + sep + name_text(names.last(), cardinality)
    }
}

/// The disjunction of two names, flattening the names that already are disjunctions.
pub open spec fn or_view(l: NameView, r: NameView) -> NameView {
    match (l, r) {
        (NameView::Or { names: ln }, NameView::Or { names: rn }) => NameView::Or { names: ln + rn },
        (NameView::Or { names: ln }, rn) => NameView::Or { names: ln.push(rn) },
        (ln, NameView::Or { names: rn }) => NameView::Or { names: seq![ln] + rn },
        (ln, rn) => NameView::Or { names: seq![ln, rn] },
    }
}

/// `texts` one after the other, with `sep` between each two of them.
pub open spec fn interleaved(texts: Seq<Seq<char>>, sep: Seq<char>) -> Seq<char>
    decreases texts.len(),
{
    if texts.len() == 0 {
        Seq::empty()
    } else if texts.len() == 1 {
        texts[0]
    } else {
        interleaved(texts.drop_last(), sep) + sep + texts.last()
    }
}

/// The texts of `names`, each for `cardinality` elements.
pub open spec fn texts_of(names: Seq<NameView>, cardinality: usize) -> Seq<Seq<char>> {
    Seq::new(names.len(), |i: int| name_text(names[i], cardinality))
}

/// Joining the texts of names is interleaving the texts of the names one by one.
proof fn lemma_joined(names: Seq<NameView>, cardinality: usize, sep: Seq<char>)
    ensures
        joined(names, cardinality, sep) == interleaved(texts_of(names, cardinality), sep),
    decreases names.len(),
{
    if names.len() > 1 {
        lemma_joined(names.drop_last(), cardinality, sep);
        assert(texts_of(names.drop_last(), cardinality) =~= texts_of(names, cardinality).drop_last());
    }
}

/// A disjunction reads as the texts of its names, each for the same number of elements as the
/// disjunction, joined by ` or ` between two names and by `, or ` otherwise.
pub proof fn lemma_disjunction_text(names: Seq<NameView>, cardinality: usize)
    ensures
        name_text(NameView::Or { names }, cardinality) == interleaved(
            texts_of(names, cardinality),
            if names.len() == 2 {
                " or "@
            } else {
                ", or "@
            },
        ),
{
    lemma_joined(
        names,
        cardinality,
        if names.len() == 2 {
            " or "@
        } else {
            ", or "@
        },
    );
}

/// The alternatives a name stands for: the names of a disjunction, or the name itself.
pub open spec fn alternatives(n: NameView) -> Seq<NameView> {
    match n {
        NameView::Or { names } => names,
        _ => seq![n],
    }
}

/// The disjunction of two names drops no alternative: it is a disjunction of the alternatives
/// of the first name followed by those of the second.
pub proof fn lemma_or_alternatives(l: NameView, r: NameView)
    ensures
        or_view(l, r) is Or,
        alternatives(or_view(l, r)) == alternatives(l) + alternatives(r),
{
    match (l, r) {
        (NameView::Or { names: ln }, NameView::Or { names: rn }) => {},
        (NameView::Or { names: ln }, rn) => {
            assert(ln.push(rn) =~= ln + seq![rn]);
        },
        (ln, NameView::Or { names: rn }) => {},
        (ln, rn) => {
            assert(seq![ln, rn] =~= seq![ln] + seq![rn]);
        },
    }
}

/// The models of a sequence of names are the models of its names, one by one.
pub proof fn lemma_names_view(names: Seq<Name>)
    ensures
        names_view(names).len() == names.len(),
        forall|i: int| 0 <= i < names.len() ==> #[trigger] names_view(names)[i] == name_view(names[i]),
    decreases names.len(),
{
    if names.len() > 0 {
        lemma_names_view(names.drop_last());
        assert forall|i: int| 0 <= i < names.len() implies #[trigger] names_view(names)[i] == name_view(
            names[i],
        ) by {
            if i < names.len() - 1 {
                assert(names.drop_last()[i] == names[i]);
            }
        }
    }
}

/// The models of two sequences of names, one after the other.
proof fn lemma_names_view_concat(a: Seq<Name>, b: Seq<Name>)
    ensures
        names_view(a + b) == names_view(a) + names_view(b),
{
    lemma_names_view(a);
    lemma_names_view(b);
    lemma_names_view(a + b);
    assert forall|i: int| 0 <= i < (a + b).len() implies #[trigger] names_view(a + b)[i] == (
    names_view(a) + names_view(b))[i] by {
        if i < a.len() {
            assert((a + b)[i] == a[i]);
        } else {
            assert((a + b)[i] == b[i - a.len()]);
        }
    }
    assert(names_view(a + b) =~= names_view(a) + names_view(b));
}

impl Name {
    /// A copy of the name.
    pub fn duplicate(&self) -> (r: Name)
        ensures
            r@ == self@,
        decreases self,
    {
        match self {
            Name::Unnamed => Name::Unnamed,
            Name::Name { singular, plural } => Name::Name {
                singular: singular.clone(),
                plural: plural.clone(),
            },
            Name::Or { names } => {
                let mut copies: Vec<Name> = Vec::new();
                let mut i: usize = 0;
                while i < names.len()
                    invariant
                        *self == (Name::Or { names: *names }),
                        i <= names@.len(),
                        names_view(copies@) == names_view(names@.take(i as int)),
                    decreases names@.len() - i,
                {
                    proof {
                        assert(decreases_to!(*self => (*self)->names));
                        assert((*self)->names == *names);
                        assert(decreases_to!(*names => names@));
                        assert(decreases_to!(names@ => names@[i as int]));
                    }
                    let c = names[i].duplicate();
                    let ghost before = copies@;
                    copies.push(c);
                    proof {
                        assert(copies@.drop_last() =~= before);
                        assert(names@.take(i + 1).drop_last() =~= names@.take(i as int));
                    }
                    i = i + 1;
                }
                proof {
                    assert(names@.take(names@.len() as int) =~= names@);
                }
                Name::Or { names: copies }
            },
        }
    }

    /// The name in the form for `cardinality` elements.
    pub fn display(&self, cardinality: usize) -> (r: String)
        ensures
            r@ == name_text(self@, cardinality),
            self@ matches NameView::Or { names } ==> r@ == interleaved(
                texts_of(names, cardinality),
                if names.len() == 2 {
                    " or "@
                } else {
                    ", or "@
                },
            ),
        decreases self,
    {
        proof {
            if let NameView::Or { names } = self@ {
                lemma_disjunction_text(names, cardinality);
            }
        }
        match self {
            Name::Unnamed => {
                if cardinality == 1 {
                    "element".to_owned()
                } else {
                    "elements".to_owned()
                }
            },
            Name::Name { singular, plural } => {
                if cardinality == 1 {
                    singular.clone()
                } else {
                    plural.clone()
                }
            },
            Name::Or { names } => {
                let sep = if names.len() == 2 {
                    " or "
                } else {
                    ", or "
                };
                let ghost views = names_view(names@);
                proof {
                    lemma_names_view(names@);
                    assert(views.take(0).len() == 0);
                }
                let mut out = String::new();
                let mut i: usize = 0;
                while i < names.len()
                    invariant
                        *self == (Name::Or { names: *names }),
                        i <= names@.len(),
                        views == names_view(names@),
                        views.len() == names@.len(),
                        out@ == joined(views.take(i as int), cardinality, sep@),
                    decreases names@.len() - i,
                {
                    proof {
                        assert(decreases_to!(*self => (*self)->names));
                        assert((*self)->names == *names);
                        assert(decreases_to!(*names => names@));
                        assert(decreases_to!(names@ => names@[i as int]));
                    }
                    let part = names[i].display(cardinality);
                    if i > 0 {
                        out.append(sep);
                    }
                    out.append(part.as_str());
                    proof {
                        lemma_names_view(names@);
                        let next = views.take(i + 1);
                        assert(next.drop_last() =~= views.take(i as int));
                        assert(next.last() == name_view(names@[i as int]));
                        if i == 0 {
                            assert(out@ =~= part@);
                        }
                    }
                    i = i + 1;
                }
                proof {
                    assert(views.take(views.len() as int) =~= views);
                }
                out
            },
        }
    }

    /// The disjunction of this name and `other`; names that already are disjunctions are
    /// merged, so that the result stays flat.
    pub fn or(&self, other: &Name) -> (r: Name)
        ensures
            r@ == or_view(self@, other@),
            r@ is Or,
            alternatives(r@) == alternatives(self@) + alternatives(other@),
    {
        proof {
            lemma_or_alternatives(self@, other@);
        }
        let l = self.duplicate();
        let r = other.duplicate();
        match (l, r) {
            (Name::Or { names: mut ln }, Name::Or { names: mut rn }) => {
                let ghost a = ln@;
                let ghost b = rn@;
                ln.append(&mut rn);
                proof {
                    lemma_names_view_concat(a, b);
                }
                Name::Or { names: ln }
            },
            (Name::Or { names: mut ln }, rn) => {
                let ghost a = ln@;
                ln.push(rn);
                proof {
                    assert(ln@.drop_last() =~= a);
                }
                Name::Or { names: ln }
            },
            (ln, Name::Or { names: rn }) => {
                let mut names: Vec<Name> = Vec::new();
                names.push(ln);
                let ghost a = names@;
                let ghost b = rn@;
                let mut rn = rn;
                names.append(&mut rn);
                proof {
                    lemma_names_view_concat(a, b);
                    lemma_names_view(a);
                    assert(names_view(a) =~= seq![name_view(a[0])]);
                }
                Name::Or { names }
            },
            (ln, rn) => {
                let mut names: Vec<Name> = Vec::new();
                names.push(ln);
                names.push(rn);
                proof {
                    lemma_names_view(names@);
                    assert(names_view(names@) =~= seq![name_view(names@[0]), name_view(names@[1])]);
                }
                Name::Or { names }
            },
        }
    }
}

} // verus!
