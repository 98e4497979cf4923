use vstd::prelude::*;

use crate::term::Term;

verus! {

/// Structural equality of terms. Binders are compared by position, so no
/// renaming is involved; erasure of a lambda is not compared, and an
/// annotation is transparent: it equals what its expression equals.
pub open spec fn term_eq(a: Term, b: Term) -> bool
    decreases a, b,
{
    match (a, b) {
        (Term::Annotation { expression: x, .. }, Term::Annotation { expression: y, .. }) => term_eq(
            *x,
            *y,
        ),
        (Term::Annotation { expression: x, .. }, _) => term_eq(*x, b),
        (_, Term::Annotation { expression: y, .. }) => term_eq(a, *y),
        (Term::Variable(x), Term::Variable(y)) => x == y,
        (Term::Lambda { body: x, .. }, Term::Lambda { body: y, .. }) => term_eq(*x, *y),
        (
            Term::Apply { function: f, argument: x, erased: e },
            Term::Apply { function: g, argument: y, erased: d },
        ) => term_eq(*f, *g) && term_eq(*x, *y) && e == d,
        (Term::Put(x), Term::Put(y)) => term_eq(*x, *y),
        (
            Term::Duplicate { expression: x, body: u },
            Term::Duplicate { expression: y, body: v },
        ) => term_eq(*x, *y) && term_eq(*u, *v),
        (Term::Reference(x), Term::Reference(y)) => x == y,
        (
            Term::Function { argument_type: x, return_type: u, erased: e },
            Term::Function { argument_type: y, return_type: v, erased: d },
        ) => term_eq(*u, *v) && term_eq(*x, *y) && e == d,
        (Term::Universe, Term::Universe) => true,
        (Term::Wrap(x), Term::Wrap(y)) => term_eq(*x, *y),
        _ => false,
    }
}

fn eq_helper(a: &Term, b: &Term) -> (r: bool)
    ensures
        r == term_eq(*a, *b),
    decreases a, b,
{
    match (a, b) {
        (Term::Annotation { expression: x, .. }, Term::Annotation { expression: y, .. }) => eq_helper(
            x,
            y,
        ),
        (Term::Annotation { expression: x, .. }, _) => eq_helper(x, b),
        (_, Term::Annotation { expression: y, .. }) => eq_helper(a, y),
        (Term::Variable(x), Term::Variable(y)) => x.0 == y.0,
        (Term::Lambda { body: x, .. }, Term::Lambda { body: y, .. }) => eq_helper(x, y),
        (
            Term::Apply { function: f, argument: x, erased: e },
            Term::Apply { function: g, argument: y, erased: d },
        ) => eq_helper(f, g) && eq_helper(x, y) && *e == *d,
        (Term::Put(x), Term::Put(y)) => eq_helper(x, y),
        (
            Term::Duplicate { expression: x, body: u },
            Term::Duplicate { expression: y, body: v },
        ) => eq_helper(x, y) && eq_helper(u, v),
        (Term::Reference(x), Term::Reference(y)) => *x == *y,
        (
            Term::Function { argument_type: x, return_type: u, erased: e },
            Term::Function { argument_type: y, return_type: v, erased: d },
        ) => eq_helper(u, v) && eq_helper(x, y) && *e == *d,
        (Term::Universe, Term::Universe) => true,
        (Term::Wrap(x), Term::Wrap(y)) => eq_helper(x, y),
        _ => false,
    }
}

impl PartialEq for Term {
    fn eq(&self, other: &Term) -> (r: bool) {
        eq_helper(self, other)
    }
}

impl vstd::std_specs::cmp::PartialEqSpecImpl for Term {
    open spec fn obeys_eq_spec() -> bool {
        true
    }

    open spec fn eq_spec(&self, other: &Term) -> bool {
        term_eq(*self, *other)
    }
}

} // verus!
