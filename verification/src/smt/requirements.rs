//! Requirements that a logic puts on what is declared in it and on its terms.

use super::decl::Declaration;
use vstd::prelude::*;

verus! {

/// The requirement of logics without uninterpreted functions: every declared function is a
/// constant.
#[derive(Clone, Copy, PartialEq, Eq, Structural, Hash, Debug)]
pub struct NoUF;

/// A declaration that the logic does not admit.
#[derive(Clone, Copy, PartialEq, Eq, Structural, Hash, Debug)]
pub struct NotAdmitted;

impl NoUF {
    /// Admit a declaration exactly when it declares a constant, a function without arguments.
    pub fn check_function<D, R>(decl: &Declaration<D, R>) -> (r: Result<(), NotAdmitted>)
        ensures
            r is Ok <==> decl.domain@.len() == 0,
    {
        if decl.domain.len() == 0 {
            Ok(())
        } else {
            Err(NotAdmitted)
        }
    }
}

/// The arithmetic functions that linearity restricts: multiplication and division of the
/// integers and of the reals, and the integer remainder and absolute value.
#[derive(Clone, Copy, PartialEq, Eq, Structural, Hash, Debug)]
pub enum Arith {
    IntsMult,
    RealsMult,
    IntsDiv,
    RealsDiv,
    IntsMod,
    IntsAbs,
}

/// The function applied by an atom: one of the restricted arithmetic functions, or any other.
#[derive(Clone, Copy, PartialEq, Eq, Structural, Hash, Debug)]
pub enum Head {
    Restricted(Arith),
    Other,
}

/// A constant: a numeral (an integer or a rational), or a constant of another sort.
#[derive(Clone, Copy, PartialEq, Eq, Structural, Hash, Debug)]
pub enum Constant {
    Numeral,
    Other,
}

/// A term, as the logic requirements read it: a constant, a function applied to arguments, a
/// quantified body, or a body under `let` definitions.
#[derive(Debug)]
pub enum Term {
    Constant(Constant),
    Atom { head: Head, arguments: Vec<Term> },
    Quantified { body: Box<Term> },
    Let { definitions: Vec<Term>, body: Box<Term> },
}

/// `t` is a numeral.
pub open spec fn is_numeral(t: Term) -> bool {
    t matches Term::Constant(Constant::Numeral)
}

/// How many of `args` are not numerals.
pub open spec fn non_numerals(args: Seq<Term>) -> nat
    decreases args.len(),
{
    if args.len() == 0 {
        0
    } else {
        non_numerals(args.drop_last()) + if is_numeral(args.last()) {
            0nat
        } else {
            1nat
        }
    }
}

/// Whether a term is not a numeral.
pub open spec fn non_numeral() -> spec_fn(Term) -> bool {
    |t: Term| !is_numeral(t)
}

/// Counting, read directly: the count of non-numerals is the number of arguments left once the
/// numerals are filtered out.
pub proof fn lemma_non_numerals_count(args: Seq<Term>)
    ensures
        non_numerals(args) == args.filter(non_numeral()).len(),
    decreases args.len(),
{
    if args.len() == 0 {
        reveal(Seq::filter);
    } else {
        let rest = args.drop_last();
        lemma_non_numerals_count(rest);
        assert(args =~= rest.push(args.last()));
        rest.lemma_filter_push(args.last(), non_numeral());
    }
}

/// Linearity, as the logics of linear arithmetic define it: the restricted arithmetic functions
/// are applied to at most one argument that is not a numeral, everywhere in the term.
pub open spec fn linear(t: Term) -> bool
    decreases t,
{
    match t {
        Term::Constant(_) => true,
        Term::Atom { head, arguments } => {
            &&& (head is Restricted ==> non_numerals(arguments@) <= 1)
            &&& forall|i: int| 0 <= i < arguments@.len() ==> linear(#[trigger] arguments@[i])
        },
        Term::Quantified { body } => linear(*body),
        Term::Let { definitions, body } => {
            &&& forall|i: int| 0 <= i < definitions@.len() ==> linear(#[trigger] definitions@[i])
            &&& linear(*body)
        },
    }
}

/// `s` occurs in `t`: it is `t` itself, or it occurs in an argument of `t`, in its quantified
/// body, or in a definition or the body of its `let`.
pub open spec fn occurs_in(s: Term, t: Term) -> bool
    decreases t,
{
    s == t || match t {
        Term::Constant(_) => false,
        Term::Atom { head, arguments } => exists|i: int|
            0 <= i < arguments@.len() && occurs_in(s, #[trigger] arguments@[i]),
        Term::Quantified { body } => occurs_in(s, *body),
        Term::Let { definitions, body } => (exists|i: int|
            0 <= i < definitions@.len() && occurs_in(s, #[trigger] definitions@[i])) || occurs_in(s, *body),
    }
}

/// `s`, if it applies a restricted arithmetic function, has at most one argument that is not a
/// numeral.
pub open spec fn admitted_atom(s: Term) -> bool {
    match s {
        Term::Atom { head, arguments } => head is Restricted ==> non_numerals(arguments@) <= 1,
        _ => true,
    }
}

/// Linearity looks at every subterm, under binders too: a term is linear exactly when every
/// term occurring in it is an admitted atom or no atom at all.
pub proof fn lemma_linear_everywhere(t: Term)
    ensures
        linear(t) <==> forall|s: Term| #[trigger] occurs_in(s, t) ==> admitted_atom(s),
    decreases t,
{
    assert(occurs_in(t, t));
    match t {
        Term::Constant(_) => {
            assert forall|s: Term| #[trigger] occurs_in(s, t) implies admitted_atom(s) by {
                assert(s == t);
            }
        },
        Term::Atom { head, arguments } => {
            assert forall|i: int| 0 <= i < arguments@.len() implies (linear(#[trigger] arguments@[i])
                <==> forall|s: Term| #[trigger] occurs_in(s, arguments@[i]) ==> admitted_atom(s)) by {
                assert(decreases_to!(t => arguments));
                assert(decreases_to!(arguments => arguments@));
                assert(decreases_to!(arguments@ => arguments@[i]));
                lemma_linear_everywhere(arguments@[i]);
            }
            if linear(t) {
                assert forall|s: Term| #[trigger] occurs_in(s, t) implies admitted_atom(s) by {
                    if s != t {
                        let i = choose|i: int| 0 <= i < arguments@.len() && occurs_in(s, #[trigger] arguments@[i]);
                        assert(linear(arguments@[i]));
                    }
                }
            }
            if forall|s: Term| #[trigger] occurs_in(s, t) ==> admitted_atom(s) {
                assert forall|i: int| 0 <= i < arguments@.len() implies linear(#[trigger] arguments@[i]) by {
                    assert forall|s: Term| #[trigger] occurs_in(s, arguments@[i]) implies admitted_atom(s) by {
                        assert(occurs_in(s, t));
                    }
                }
            }
        },
        Term::Quantified { body } => {
            lemma_linear_everywhere(*body);
            if linear(t) {
                assert forall|s: Term| #[trigger] occurs_in(s, t) implies admitted_atom(s) by {
                    if s != t {
                        assert(occurs_in(s, *body));
                    }
                }
            }
            if forall|s: Term| #[trigger] occurs_in(s, t) ==> admitted_atom(s) {
                assert forall|s: Term| #[trigger] occurs_in(s, *body) implies admitted_atom(s) by {
                    assert(occurs_in(s, t));
                }
            }
        },
        Term::Let { definitions, body } => {
            lemma_linear_everywhere(*body);
            assert forall|i: int| 0 <= i < definitions@.len() implies (linear(#[trigger] definitions@[i])
                <==> forall|s: Term| #[trigger] occurs_in(s, definitions@[i]) ==> admitted_atom(s)) by {
                assert(decreases_to!(t => definitions));
                assert(decreases_to!(definitions => definitions@));
                assert(decreases_to!(definitions@ => definitions@[i]));
                lemma_linear_everywhere(definitions@[i]);
            }
            if linear(t) {
                assert forall|s: Term| #[trigger] occurs_in(s, t) implies admitted_atom(s) by {
                    if s != t && !occurs_in(s, *body) {
                        let i = choose|i: int| 0 <= i < definitions@.len() && occurs_in(s, #[trigger] definitions@[i]);
                        assert(linear(definitions@[i]));
                    }
                }
            }
            if forall|s: Term| #[trigger] occurs_in(s, t) ==> admitted_atom(s) {
                assert forall|i: int| 0 <= i < definitions@.len() implies linear(#[trigger] definitions@[i]) by {
                    assert forall|s: Term| #[trigger] occurs_in(s, definitions@[i]) implies admitted_atom(s) by {
                        assert(occurs_in(s, t));
                    }
                }
                assert forall|s: Term| #[trigger] occurs_in(s, *body) implies admitted_atom(s) by {
                    assert(occurs_in(s, t));
                }
            }
        },
    }
}

/// The absence of quantifiers looks at every subterm: a term is quantifier-free exactly when no
/// quantified term occurs in it.
pub proof fn lemma_quantifier_free_everywhere(t: Term)
    ensures
        quantifier_free(t) <==> forall|s: Term| #[trigger] occurs_in(s, t) ==> !(s is Quantified),
    decreases t,
{
    assert(occurs_in(t, t));
    match t {
        Term::Constant(_) => {
            assert forall|s: Term| #[trigger] occurs_in(s, t) implies !(s is Quantified) by {
                assert(s == t);
            }
        },
        Term::Atom { head, arguments } => {
            assert forall|i: int| 0 <= i < arguments@.len() implies (quantifier_free(
                #[trigger] arguments@[i],
            ) <==> forall|s: Term| #[trigger] occurs_in(s, arguments@[i]) ==> !(s is Quantified)) by {
                assert(decreases_to!(t => arguments));
                assert(decreases_to!(arguments => arguments@));
                assert(decreases_to!(arguments@ => arguments@[i]));
                lemma_quantifier_free_everywhere(arguments@[i]);
            }
            if quantifier_free(t) {
                assert forall|s: Term| #[trigger] occurs_in(s, t) implies !(s is Quantified) by {
                    if s != t {
                        let i = choose|i: int| 0 <= i < arguments@.len() && occurs_in(s, #[trigger] arguments@[i]);
                        assert(quantifier_free(arguments@[i]));
                    }
                }
            }
            if forall|s: Term| #[trigger] occurs_in(s, t) ==> !(s is Quantified) {
                assert forall|i: int| 0 <= i < arguments@.len() implies quantifier_free(
                    #[trigger] arguments@[i],
                ) by {
                    assert forall|s: Term| #[trigger] occurs_in(s, arguments@[i]) implies !(s is Quantified) by {
                        assert(occurs_in(s, t));
                    }
                }
            }
        },
        Term::Quantified { body } => {
            assert(occurs_in(t, t) && t is Quantified);
        },
        Term::Let { definitions, body } => {
            lemma_quantifier_free_everywhere(*body);
            assert forall|i: int| 0 <= i < definitions@.len() implies (quantifier_free(
                #[trigger] definitions@[i],
            ) <==> forall|s: Term| #[trigger] occurs_in(s, definitions@[i]) ==> !(s is Quantified)) by {
                assert(decreases_to!(t => definitions));
                assert(decreases_to!(definitions => definitions@));
                assert(decreases_to!(definitions@ => definitions@[i]));
                lemma_quantifier_free_everywhere(definitions@[i]);
            }
            if quantifier_free(t) {
                assert forall|s: Term| #[trigger] occurs_in(s, t) implies !(s is Quantified) by {
                    if s != t && !occurs_in(s, *body) {
                        let i = choose|i: int| 0 <= i < definitions@.len() && occurs_in(s, #[trigger] definitions@[i]);
                        assert(quantifier_free(definitions@[i]));
                    }
                }
            }
            if forall|s: Term| #[trigger] occurs_in(s, t) ==> !(s is Quantified) {
                assert forall|i: int| 0 <= i < definitions@.len() implies quantifier_free(
                    #[trigger] definitions@[i],
                ) by {
                    assert forall|s: Term| #[trigger] occurs_in(s, definitions@[i]) implies !(s is Quantified) by {
                        assert(occurs_in(s, t));
                    }
                }
                assert forall|s: Term| #[trigger] occurs_in(s, *body) implies !(s is Quantified) by {
                    assert(occurs_in(s, t));
                }
            }
        },
    }
}

/// `t` has no quantifier anywhere.
pub open spec fn quantifier_free(t: Term) -> bool
    decreases t,
{
    match t {
        Term::Constant(_) => true,
        Term::Atom { head, arguments } => forall|i: int|
            0 <= i < arguments@.len() ==> quantifier_free(#[trigger] arguments@[i]),
        Term::Quantified { body } => false,
        Term::Let { definitions, body } => {
            &&& forall|i: int| 0 <= i < definitions@.len() ==> quantifier_free(#[trigger] definitions@[i])
            &&& quantifier_free(*body)
        },
    }
}

/// The requirement of the quantifier-free logics.
#[derive(Clone, Copy, PartialEq, Eq, Structural, Hash, Debug)]
pub struct QuantifierFree;

impl QuantifierFree {
    /// Admit a term exactly when it is [quantifier_free].
    pub fn check_term(term: &Term) -> (r: Result<(), NotAdmitted>)
        ensures
            r is Ok <==> quantifier_free(*term),
            r is Ok <==> forall|s: Term| #[trigger] occurs_in(s, *term) ==> !(s is Quantified),
        decreases term,
    {
        proof {
            lemma_quantifier_free_everywhere(*term);
        }
        match term {
            Term::Constant(_) => Ok(()),
            Term::Atom { head: _, arguments } => check_all_quantifier_free(arguments),
            Term::Quantified { body: _ } => Err(NotAdmitted),
            Term::Let { definitions, body } => {
                match check_all_quantifier_free(definitions) {
                    Ok(()) => QuantifierFree::check_term(body),
                    Err(e) => Err(e),
                }
            },
        }
    }
}

/// Admit terms exactly when each of them is [quantifier_free].
fn check_all_quantifier_free(terms: &Vec<Term>) -> (r: Result<(), NotAdmitted>)
    ensures
        r is Ok <==> forall|i: int| 0 <= i < terms@.len() ==> quantifier_free(#[trigger] terms@[i]),
    decreases terms,
{
    let mut i: usize = 0;
    while i < terms.len()
        invariant
            i <= terms@.len(),
            forall|k: int| 0 <= k < i ==> quantifier_free(#[trigger] terms@[k]),
        decreases terms@.len() - i,
    {
        proof {
            assert(decreases_to!(terms => terms@));
            assert(decreases_to!(terms@ => terms@[i as int]));
        }
        match QuantifierFree::check_term(&terms[i]) {
            Ok(()) => {},
            Err(e) => return Err(e),
        }
        i = i + 1;
    }
    Ok(())
}

/// The requirement of the logics of linear arithmetic.
#[derive(Clone, Copy, PartialEq, Eq, Structural, Hash, Debug)]
pub struct Linear;

impl Linear {
    /// Admit a term exactly when it is [linear].
    pub fn check_term(term: &Term) -> (r: Result<(), NotAdmitted>)
        ensures
            r is Ok <==> linear(*term),
            r is Ok <==> forall|s: Term| #[trigger] occurs_in(s, *term) ==> admitted_atom(s),
        decreases term,
    {
        proof {
            lemma_linear_everywhere(*term);
        }
        match term {
            Term::Constant(_) => Ok(()),
            Term::Atom { head, arguments } => {
                if let Head::Restricted(_) = head {
                    let mut count: usize = 0;
                    let mut i: usize = 0;
                    while i < arguments.len()
                        invariant
                            i <= arguments@.len(),
                            count == non_numerals(arguments@.take(i as int)),
                            count <= i,
                        decreases arguments@.len() - i,
                    {
                        proof {
                            assert(arguments@.take(i + 1).drop_last() =~= arguments@.take(i as int));
                        }
                        let numeral = match &arguments[i] {
                            Term::Constant(Constant::Numeral) => true,
                            _ => false,
                        };
                        if !numeral {
                            count = count + 1;
                        }
                        i = i + 1;
                    }
                    proof {
                        assert(arguments@.take(arguments@.len() as int) =~= arguments@);
                    }
                    if count > 1 {
                        return Err(NotAdmitted);
                    }
                }
                check_all_linear(arguments)
            },
            Term::Quantified { body } => Linear::check_term(body),
            Term::Let { definitions, body } => {
                match check_all_linear(definitions) {
                    Ok(()) => Linear::check_term(body),
                    Err(e) => Err(e),
                }
            },
        }
    }
}

/// Admit terms exactly when each of them is [linear].
fn check_all_linear(terms: &Vec<Term>) -> (r: Result<(), NotAdmitted>)
    ensures
        r is Ok <==> forall|i: int| 0 <= i < terms@.len() ==> linear(#[trigger] terms@[i]),
    decreases terms,
{
    let mut i: usize = 0;
    while i < terms.len()
        invariant
            i <= terms@.len(),
            forall|k: int| 0 <= k < i ==> linear(#[trigger] terms@[k]),
        decreases terms@.len() - i,
    {
        proof {
            assert(decreases_to!(terms => terms@));
            assert(decreases_to!(terms@ => terms@[i as int]));
        }
        match Linear::check_term(&terms[i]) {
            Ok(()) => {},
            Err(e) => return Err(e),
        }
        i = i + 1;
    }
    Ok(())
}

} // verus!
