use welkin_core::accelerated::{after_round, workgroups, Decision, State};
use welkin_core::compile::{compile, NetBuilderExt, NetError};
use welkin_core::net::{AgentType, Net, Port, Role};
use welkin_core::term::{Definitions, Index, Term};

fn var(i: usize) -> Box<Term> {
    Box::new(Term::Variable(Index(i)))
}

fn identity() -> Box<Term> {
    Box::new(Term::Lambda { body: var(0), erased: false })
}

#[test]
fn identity_applied_reduces_in_one_rewrite() {
    let defs = Definitions::new();
    let t = Term::Apply { function: identity(), argument: identity(), erased: false };
    let mut net = compile(t.stratified(&defs).ok().unwrap()).ok().unwrap();
    assert_eq!(net.arena_len(), 3);
    assert_eq!(net.active_len(), 1);
    assert_eq!(net.reduce_all(100), Some(1));
    assert_eq!(net.entry(), Port { agent: 2, role: Role::Principal });
    assert_eq!(net.freed_len(), 2);
}

#[test]
fn annihilation_frees_two_slots() {
    let defs = Definitions::new();
    let t = Term::Apply { function: identity(), argument: identity(), erased: false };
    let mut net = compile(t.stratified(&defs).ok().unwrap()).ok().unwrap();
    let live_before = net.arena_len() - net.freed_len();
    net.reduce_all(100);
    assert_eq!(net.arena_len() - net.freed_len(), live_before - 2);
}

#[test]
fn freed_slot_is_reused() {
    let defs = Definitions::new();
    let t = Term::Apply { function: identity(), argument: identity(), erased: false };
    let mut net = compile(t.stratified(&defs).ok().unwrap()).ok().unwrap();
    net.reduce_all(100);
    let len = net.arena_len();
    let (p, _, _) = net.add(AgentType::Delta);
    assert_eq!(net.arena_len(), len);
    assert_eq!(p.agent, 1);
    assert_eq!(net.freed_len(), 1);
}

#[test]
fn erased_argument_allocates_no_fan() {
    let defs = Definitions::new();
    let t = Term::Lambda {
        body: Box::new(Term::Apply { function: var(0), argument: var(0), erased: true }),
        erased: false,
    };
    let net = <Net as NetBuilderExt>::build_net(t.stratified(&defs).ok().unwrap()).ok().unwrap();
    assert_eq!(net.arena_len(), 1);
    assert_eq!(net.agent(0).tag, AgentType::Delta);
}

#[test]
fn duplicated_binding_threads_a_fan() {
    let defs = Definitions::new();
    let t = Term::Duplicate {
        expression: Box::new(Term::Put(identity())),
        body: Box::new(Term::Put(Box::new(Term::Apply {
            function: var(0),
            argument: var(0),
            erased: false,
        }))),
    };
    let net = compile(t.stratified(&defs).ok().unwrap()).ok().unwrap();
    let mut fans = 0;
    for i in 0..net.arena_len() {
        if net.agent(i).tag == AgentType::Zeta {
            fans += 1;
        }
    }
    assert_eq!(fans, 1);
}

#[test]
fn reference_is_compiled_in_place() {
    let mut defs = Definitions::new();
    assert_eq!(defs.define(*identity()), Some(0));
    let t = Term::Apply {
        function: Box::new(Term::Reference(0)),
        argument: Box::new(Term::Reference(0)),
        erased: false,
    };
    let mut net = compile(t.stratified(&defs).ok().unwrap()).ok().unwrap();
    assert_eq!(net.arena_len(), 3);
    assert_eq!(net.reduce_all(100), Some(1));
}

#[test]
fn typed_term_is_refused() {
    let defs = Definitions::new();
    let r = compile(Term::Universe.stratified(&defs).ok().unwrap());
    assert!(matches!(r, Err(NetError::TypedTerm(Term::Universe))));
}

#[test]
fn unbound_variable_is_refused() {
    let defs = Definitions::new();
    let r = compile(Term::Variable(Index(0)).stratified(&defs).ok().unwrap());
    assert!(matches!(r, Err(NetError::UnboundVariable(Index(0)))));
    let open = Term::Lambda { body: var(1), erased: false };
    let r = compile(open.stratified(&defs).ok().unwrap());
    assert!(matches!(r, Err(NetError::UnboundVariable(Index(1)))));
}

#[test]
fn erased_binder_compiles_to_a_placeholder() {
    let defs = Definitions::new();
    let t = Term::Lambda {
        body: Box::new(Term::Lambda { body: var(0), erased: true }),
        erased: false,
    };
    let net = compile(t.stratified(&defs).ok().unwrap()).ok().unwrap();
    assert_eq!(net.arena_len(), 1);
    assert_eq!(net.agent(0).tag, AgentType::Delta);
    assert!(net.is_root(net.follow(Port { agent: 0, role: Role::Right })));
}

#[test]
fn identity_compiles_to_one_looped_delta() {
    let defs = Definitions::new();
    let net = compile(identity().stratified(&defs).ok().unwrap()).ok().unwrap();
    assert_eq!(net.arena_len(), 1);
    assert_eq!(net.agent(0).tag, AgentType::Delta);
    let left = Port { agent: 0, role: Role::Left };
    let right = Port { agent: 0, role: Role::Right };
    assert_eq!(net.follow(right), left);
    assert_eq!(net.follow(left), right);
    assert_eq!(net.entry(), Port { agent: 0, role: Role::Principal });
}

#[test]
fn typed_term_inside_a_lambda_is_refused_with_itself() {
    let defs = Definitions::new();
    let t = Term::Lambda { body: Box::new(Term::Wrap(var(0))), erased: false };
    let r = compile(t.stratified(&defs).ok().unwrap());
    assert!(matches!(r, Err(NetError::TypedTerm(Term::Wrap(_)))));
}

#[test]
fn commutation_wires_copies() {
    let mut net = Net::new();
    let (dp, dl, dr) = net.add(AgentType::Delta);
    let (zp, zl, zr) = net.add(AgentType::Zeta);
    let (e1, _, _) = net.add(AgentType::Delta);
    let (e2, _, _) = net.add(AgentType::Delta);
    let (e3, _, _) = net.add(AgentType::Delta);
    let (e4, _, _) = net.add(AgentType::Delta);
    net.connect(dl, e1);
    net.connect(dr, e2);
    net.connect(zl, e3);
    net.connect(zr, e4);
    net.connect(dp, zp);
    let (a1, a2, b1, b2) = net.commute(0, 1);
    assert_eq!(net.follow(e1), Port { agent: b1, role: Role::Principal });
    assert_eq!(net.follow(e2), Port { agent: b2, role: Role::Principal });
    assert_eq!(net.follow(e3), Port { agent: a1, role: Role::Principal });
    assert_eq!(net.follow(e4), Port { agent: a2, role: Role::Principal });
    assert_eq!(net.agent(a1).tag, AgentType::Delta);
    assert_eq!(net.agent(b1).tag, AgentType::Zeta);
    assert_eq!(net.follow(Port { agent: a1, role: Role::Right }), Port { agent: b2, role: Role::Left });
    assert_eq!(net.follow(Port { agent: a2, role: Role::Left }), Port { agent: b1, role: Role::Right });
}

#[test]
fn commutation_adds_two_agents() {
    let mut net = Net::new();
    let (dp, dl, dr) = net.add(AgentType::Delta);
    let (zp, zl, zr) = net.add(AgentType::Zeta);
    let (ap, _, _) = net.add(AgentType::Delta);
    let (bp, _, _) = net.add(AgentType::Delta);
    net.connect(dp, zp);
    net.connect(dl, ap);
    net.connect(zl, bp);
    let _ = (dr, zr);
    let live_before = net.arena_len() - net.freed_len();
    net.reduce_all(1);
    assert_eq!(net.arena_len() - net.freed_len(), live_before + 2);
    assert_eq!(net.agent(net.follow(ap).agent).tag, AgentType::Zeta);
    assert_eq!(net.agent(net.follow(bp).agent).tag, AgentType::Delta);
}

#[test]
fn connect_and_follow() {
    let mut net = Net::new();
    let (p, l, _) = net.add(AgentType::Delta);
    assert_eq!(net.follow(l), l);
    assert!(!net.is_root(net.follow(p)));
    net.connect(p, l);
    assert_eq!(net.follow(p), l);
    assert_eq!(net.follow(l), p);
    assert_eq!(net.active_len(), 0);
    let net = net.build(p);
    assert_eq!(net.entry(), p);
    assert!(net.is_root(net.follow(p)));
}

#[test]
fn workgroups_round_up() {
    assert_eq!(workgroups(0), 0);
    assert_eq!(workgroups(1), 1);
    assert_eq!(workgroups(64), 1);
    assert_eq!(workgroups(65), 2);
    assert_eq!(workgroups(u32::MAX), 67108864);
}

#[test]
fn round_finishes_only_without_redexes() {
    let mut s = State::staged(3, 1);
    s.rewrites = 7;
    assert_eq!(after_round(&mut s), Decision::Continue);
    assert_eq!(s.rewrites, 7);
    s.active_pairs = 0;
    assert_eq!(after_round(&mut s), Decision::Finished(7));
    assert_eq!(s.rewrites, 0);
}
