use welkin_core::net::{Agent, AgentType, Net, Port, Role, ROOT};
use welkin_core::term::{Index, Term};

fn var(i: usize) -> Box<Term> {
    Box::new(Term::Variable(Index(i)))
}

#[test]
fn equal_terms_compare_equal() {
    let a = Term::Lambda { body: var(0), erased: false };
    let b = Term::Lambda { body: var(0), erased: true };
    assert!(a == b);
    assert!(a == a.copy());
    let c = Term::Lambda { body: var(1), erased: false };
    assert!(a != c);
}

#[test]
fn annotation_is_transparent_to_equality() {
    let a = Term::Annotation { checked: true, expression: var(0), ty: Box::new(Term::Universe) };
    assert!(a == Term::Variable(Index(0)));
    assert!(Term::Variable(Index(0)) == a);
    assert!(a != Term::Variable(Index(1)));
}

#[test]
fn apply_equality_compares_erasure() {
    let a = Term::Apply { function: var(0), argument: var(1), erased: false };
    let b = Term::Apply { function: var(0), argument: var(1), erased: true };
    assert!(a != b);
    assert!(Term::Duplicate { expression: var(0), body: var(0) } == Term::Duplicate { expression: var(0), body: var(0) });
    assert!(Term::Reference(2) != Term::Universe);
}

#[test]
fn parts_round_trip() {
    let mut net = Net::new();
    let (p, l, _) = net.add(AgentType::Delta);
    net.connect(p, l);
    let net = net.build(p);
    let (agents, freed, active, root) = net.into_parts();
    assert_eq!(agents.len(), 1);
    assert_eq!(root, p);
    let net = Net::from_parts(agents, freed, active, root).unwrap();
    assert_eq!(net.follow(l), p);
}

#[test]
fn parts_out_of_arena_are_refused() {
    let dangling = Agent {
        tag: AgentType::Zeta,
        principal: Port { agent: 7, role: Role::Principal },
        left: Port { agent: 0, role: Role::Left },
        right: Port { agent: 0, role: Role::Right },
    };
    let root = Port { agent: ROOT, role: Role::Principal };
    assert!(Net::from_parts(vec![dangling], vec![], vec![], root).is_none());
    let mut fine = dangling;
    fine.principal = Port { agent: 0, role: Role::Principal };
    assert!(Net::from_parts(vec![fine], vec![], vec![], root).is_some());
    assert!(Net::from_parts(vec![fine], vec![1], vec![], root).is_none());
    assert!(Net::from_parts(vec![fine], vec![0, 0], vec![], root).is_none());
    assert!(Net::from_parts(vec![fine], vec![0], vec![], root).is_some());
    assert!(Net::from_parts(vec![fine], vec![], vec![3], root).is_none());
    let bad_root = Port { agent: ROOT, role: Role::Left };
    assert!(Net::from_parts(vec![fine], vec![], vec![], bad_root).is_none());
}
