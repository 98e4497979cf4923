use welkin_core::stratified::StratificationError;
use welkin_core::term::{Definitions, Index, Term};

fn var(i: usize) -> Box<Term> {
    Box::new(Term::Variable(Index(i)))
}

fn lam(body: Box<Term>) -> Box<Term> {
    Box::new(Term::Lambda { body, erased: false })
}

#[test]
fn reused_binder_is_refused() {
    let defs = Definitions::new();
    let t = Term::Lambda {
        body: Box::new(Term::Apply { function: var(0), argument: var(0), erased: false }),
        erased: false,
    };
    let r = t.stratified(&defs);
    assert!(matches!(r, Err(StratificationError::AffineReused { .. })));
}

#[test]
fn erased_argument_is_not_a_use() {
    let defs = Definitions::new();
    let t = Term::Lambda {
        body: Box::new(Term::Apply { function: var(0), argument: var(0), erased: true }),
        erased: false,
    };
    assert!(t.stratified(&defs).is_ok());
}

#[test]
fn single_use_at_level_zero_is_accepted() {
    let defs = Definitions::new();
    let t = Term::Lambda { body: var(0), erased: false };
    let s = t.stratified(&defs).ok().unwrap();
    assert!(matches!(s.into_inner(), Term::Lambda { .. }));
}

#[test]
fn use_inside_box_is_refused() {
    let defs = Definitions::new();
    let t = Term::Lambda { body: Box::new(Term::Put(var(0))), erased: false };
    let r = t.stratified(&defs);
    assert!(matches!(r, Err(StratificationError::AffineUsedInBox { .. })));
}

#[test]
fn duplicate_outside_box_is_refused() {
    let defs = Definitions::new();
    let t = Term::Duplicate { expression: Box::new(Term::Put(lam(var(0)))), body: var(0) };
    let r = t.stratified(&defs);
    assert!(matches!(r, Err(StratificationError::DupNonUnitBoxMultiplicity { .. })));
}

#[test]
fn duplicate_inside_one_box_is_accepted() {
    let defs = Definitions::new();
    let t = Term::Duplicate {
        expression: Box::new(Term::Put(lam(var(0)))),
        body: Box::new(Term::Put(Box::new(Term::Apply {
            function: var(0),
            argument: var(0),
            erased: false,
        }))),
    };
    assert!(t.stratified(&defs).is_ok());
}

#[test]
fn undefined_reference_is_refused() {
    let defs = Definitions::new();
    let r = Term::Reference(5).stratified(&defs);
    assert!(matches!(r, Err(StratificationError::UndefinedReference { name: 5 })));
}

#[test]
fn reference_body_is_checked() {
    let mut defs = Definitions::new();
    let bad = Term::Lambda {
        body: Box::new(Term::Apply { function: var(0), argument: var(0), erased: false }),
        erased: false,
    };
    assert_eq!(defs.define(bad), Some(0));
    let r = Term::Reference(0).stratified(&defs);
    assert!(matches!(r, Err(StratificationError::AffineReused { .. })));
}

#[test]
fn open_or_forward_definitions_are_refused() {
    let mut defs = Definitions::new();
    assert_eq!(defs.define(Term::Variable(Index(0))), None);
    assert_eq!(defs.define(Term::Reference(0)), None);
    assert_eq!(defs.define(*lam(var(0))), Some(0));
    assert_eq!(defs.define(Term::Reference(0)), Some(1));
    assert!(defs.get(1).is_some());
    assert!(defs.get(2).is_none());
}

#[test]
fn uses_counts_references_to_the_binder() {
    let t = Term::Apply {
        function: var(0),
        argument: Box::new(Term::Apply { function: var(0), argument: var(1), erased: false }),
        erased: false,
    };
    assert_eq!(t.uses(), 2);
    assert_eq!(lam(var(1)).uses(), 1);
    assert_eq!(lam(var(0)).uses(), 0);
}

#[test]
fn is_at_level_counts_boxes() {
    let t = Term::Put(var(0));
    assert!(t.is_at_level(1, 0, 0));
    assert!(!t.is_at_level(0, 0, 0));
    assert!(Term::Put(var(3)).is_at_level(0, 0, 0));
}
