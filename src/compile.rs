use vstd::prelude::*;

use crate::net::{lp, m_annihilate, m_reduce, m_step, pp, rp, Agent, Step, empty_model, m_add, m_connect, m_target, root_port, AgentType, Model, Net, Port, Role, ROOT};
use crate::stratified::{check, stratification, Stratified};
use crate::term::{lemma_refs_below_ok, lemma_refs_ok_top, refs_ok, scoped, Definitions, Index, Term};

verus! {

/// Why a checked term could not be compiled to a net.
#[derive(Debug)]
pub enum NetError {
    /// A type-level term stands where a runtime value is needed.
    TypedTerm(Term),
    /// A variable refers to no enclosing binder.
    UnboundVariable(Index),
}

/// Whether compiling `t` under `depth` open binders succeeds: every variable
/// that reaches the net refers to an enclosing binder, and no type-level term
/// stands where a value is needed.
pub open spec fn compiles(t: Term, defs: Seq<Term>, bound: nat, depth: nat) -> bool
    decreases bound, t,
{
    match t {
        Term::Variable(i) => i.0 < depth,
        Term::Lambda { body, .. } => compiles(*body, defs, bound, depth + 1),
        Term::Apply { function, argument, erased } => compiles(*function, defs, bound, depth) && (
        erased || compiles(*argument, defs, bound, depth)),
        Term::Put(x) => compiles(*x, defs, bound, depth),
        Term::Duplicate { expression, body } => compiles(*expression, defs, bound, depth)
            && compiles(*body, defs, bound, depth + 1),
        Term::Reference(n) => n < defs.len() && n < bound && compiles(
            defs[n as int],
            defs,
            n as nat,
            depth,
        ),
        Term::Annotation { expression, .. } => compiles(*expression, defs, bound, depth),
        Term::Universe | Term::Function { .. } | Term::Wrap(_) => false,
    }
}

/// Whether a type-level term stands in `t` where a runtime value is needed:
/// anywhere but in an erased argument or an annotation's type.
pub open spec fn has_typed_value(t: Term, defs: Seq<Term>, bound: nat) -> bool
    decreases bound, t,
{
    match t {
        Term::Variable(_) => false,
        Term::Lambda { body, .. } => has_typed_value(*body, defs, bound),
        Term::Apply { function, argument, erased } => has_typed_value(*function, defs, bound) || (
        !erased && has_typed_value(*argument, defs, bound)),
        Term::Put(x) => has_typed_value(*x, defs, bound),
        Term::Duplicate { expression, body } => has_typed_value(*expression, defs, bound)
            || has_typed_value(*body, defs, bound),
        Term::Reference(n) => n < defs.len() && n < bound && has_typed_value(
            defs[n as int],
            defs,
            n as nat,
        ),
        Term::Annotation { expression, .. } => has_typed_value(*expression, defs, bound),
        Term::Universe | Term::Function { .. } | Term::Wrap(_) => true,
    }
}

/// What compiling `t` does to the net `m` and the binder stack `v`
/// (innermost last): the net and stack after, and the port of the value or
/// the error.
/// - A variable follows the fan rule of `compiled_variable`.
/// - A box, an annotation and an erased application compile as their inner
///   term (the function, for an application); a reference compiles its
///   definition in place.
/// - A lambda adds a Delta, compiles its body with the Delta's left port as
///   the innermost binder, connects the Delta's right port to the body's
///   value, and gives the Delta's principal port. An erased lambda adds
///   nothing and compiles its body with the root as a placeholder binder.
/// - An application adds a Delta, connects its principal port to the
///   function's value and its left port to the argument's, and gives its
///   right port.
/// - A duplication compiles its expression, then its body with the
///   expression's port as the innermost binder, and gives the body's value.
/// - A type-level term is refused as itself.
pub open spec fn compiled(t: Term, defs: Seq<Term>, bound: nat, m: Model, v: Seq<Port>) -> (
    Model,
    Seq<Port>,
    Result<Port, NetError>,
)
    decreases bound, t,
{
    match t {
        Term::Variable(i) => compiled_variable(m, v, i),
        Term::Put(x) => compiled(*x, defs, bound, m, v),
        Term::Annotation { expression, .. } => compiled(*expression, defs, bound, m, v),
        Term::Reference(n) => if n < defs.len() && n < bound {
            compiled(defs[n as int], defs, n as nat, m, v)
        } else {
            (m, v, Err(NetError::TypedTerm(t)))
        },
        Term::Lambda { body, erased } => if erased {
            let (m1, v1, r) = compiled(*body, defs, bound, m, v.push(root_port()));
            (m1, v1.drop_last(), r)
        } else {
            let (m1, s) = m_add(m, AgentType::Delta);
            let (m2, v2, r) = compiled(*body, defs, bound, m1, v.push(lp(s)));
            match r {
                Ok(b) => (m_connect(m2, rp(s), b), v2.drop_last(), Ok(pp(s))),
                Err(e) => (m2, v2.drop_last(), Err(e)),
            }
        },
        Term::Duplicate { expression, body } => {
            let (m1, v1, r1) = compiled(*expression, defs, bound, m, v);
            match r1 {
                Ok(e) => {
                    let (m2, v2, r2) = compiled(*body, defs, bound, m1, v1.push(e));
                    (m2, v2.drop_last(), r2)
                },
                Err(e) => (m1, v1, Err(e)),
            }
        },
        Term::Apply { function, argument, erased } => if erased {
            compiled(*function, defs, bound, m, v)
        } else {
            let (m1, s) = m_add(m, AgentType::Delta);
            let (m2, v2, rf) = compiled(*function, defs, bound, m1, v);
            match rf {
                Ok(f) => {
                    let m3 = m_connect(m2, pp(s), f);
                    let (m4, v4, ra) = compiled(*argument, defs, bound, m3, v2);
                    match ra {
                        Ok(a) => (m_connect(m4, lp(s), a), v4, Ok(rp(s))),
                        Err(e) => (m4, v4, Err(e)),
                    }
                },
                Err(e) => (m2, v2, Err(e)),
            }
        },
        Term::Universe | Term::Function { .. } | Term::Wrap(_) => (m, v, Err(NetError::TypedTerm(t))),
    }
}

/// Compiling `Variable(i)`. Out of range it fails. If the binder's port is
/// unconnected, or connected to itself or the root, the use binds in place.
/// Otherwise a fresh fan is added: its principal port is wired to the
/// binder's port, its left port to what that port was connected to, and its
/// right port is both the result and the binder's new slot.
pub open spec fn compiled_variable(m: Model, v: Seq<Port>, i: Index) -> (
    Model,
    Seq<Port>,
    Result<Port, NetError>,
) {
    if i.0 >= v.len() {
        (m, v, Err(NetError::UnboundVariable(i)))
    } else {
        let slot = v.len() - 1 - i.0;
        let p = v[slot];
        let q = m_target(m, p);
        if q.agent == ROOT || q == p {
            (m, v, Ok(p))
        } else {
            let (m1, s) = m_add(m, AgentType::Zeta);
            let m3 = m_connect(m_connect(m1, pp(s), p), lp(s), q);
            (m3, v.update(slot, rp(s)), Ok(rp(s)))
        }
    }
}

/// Every binder port on the stack is a port of `net`.
pub open spec fn vars_valid(net: Net, vars: Seq<Port>) -> bool {
    forall|k: int| 0 <= k < vars.len() ==> net.valid(#[trigger] vars[k])
}

/// The tags of the agents in the first `len` slots of `a` are those of `b`.
pub open spec fn tags_kept(a: Net, b: Net, len: nat) -> bool {
    forall|j: int| 0 <= j < len ==> (#[trigger] a.agents()[j]).tag == b.agents()[j].tag
}

impl Term {
    /// Compiles the term into `net`, with `vars` holding a port for each open
    /// binder, innermost last, and returns the port of its value. An erased
    /// binder holds the root as its placeholder.
    pub fn build_net(
        &self,
        net: &mut Net,
        definitions: &Definitions,
        vars: &mut Vec<Port>,
        Ghost(bound): Ghost<nat>,
    ) -> (r: Result<Port, NetError>)
        requires
            old(net).wf(),
            old(net).freed().len() == 0,
            definitions.wf(),
            refs_ok(*self, definitions@.len(), bound),
            check(*self, definitions@, bound) is Ok,
            vars_valid(*old(net), old(vars)@),
        ensures
            final(net).wf(),
            final(net).freed().len() == 0,
            final(net).agents().len() >= old(net).agents().len(),
            tags_kept(*final(net), *old(net), old(net).agents().len()),
            final(vars)@.len() == old(vars)@.len(),
            vars_valid(*final(net), final(vars)@),
            (r is Ok) == compiles(*self, definitions@, bound, old(vars)@.len()),
            r is Ok ==> final(net).valid(r->Ok_0),
            r matches Err(NetError::TypedTerm(_)) || r matches Err(NetError::UnboundVariable(_))
                || r is Ok,
            r matches Err(NetError::TypedTerm(_)) ==> has_typed_value(*self, definitions@, bound),
            (final(net).model(), final(vars)@, r) == compiled(
                *self,
                definitions@,
                bound,
                old(net).model(),
                old(vars)@,
            ),
        decreases bound, self,
    {
        let ghost v0 = vars@;
        let ghost n0 = *net;
        match self {
            Term::Variable(i) => {
                let len = vars.len();
                if i.0 >= len {
                    return Err(NetError::UnboundVariable(*i));
                }
                let slot = len - 1 - i.0;
                let ptr = vars[slot];
                let target = net.follow(ptr);
                if net.is_root(target) || target == ptr {
                    Ok(ptr)
                } else {
                    let (principal, left, right) = net.add(AgentType::Zeta);
                    let ghost n1 = *net;
                    net.connect(principal, ptr);
                    let ghost n2 = *net;
                    net.connect(left, target);
                    vars.set(slot, right);
                    proof {
                        assert(n1.valid(ptr));
                        assert(n2.target(principal) == ptr);
                        assert(principal != left && principal != target);
                        assert forall|k: int| 0 <= k < vars@.len() implies net.valid(
                            #[trigger] vars@[k],
                        ) by {
                            if k != slot {
                                assert(vars@[k] == v0[k]);
                                assert(n0.valid(v0[k]));
                            }
                        }
                    }
                    Ok(right)
                }
            },
            Term::Put(x) => x.build_net(net, definitions, vars, Ghost(bound)),
            Term::Annotation { expression, .. } => expression.build_net(
                net,
                definitions,
                vars,
                Ghost(bound),
            ),
            Term::Reference(name) => {
                let term = definitions.get(*name).unwrap();
                proof {
                    lemma_refs_below_ok(*term, definitions@.len(), *name as nat);
                }
                term.build_net(net, definitions, vars, Ghost(*name as nat))
            },
            Term::Lambda { body, erased } => {
                if *erased {
                    vars.push(Port { agent: ROOT, role: Role::Principal });
                    proof {
                        assert forall|k: int| 0 <= k < vars@.len() implies net.valid(
                            #[trigger] vars@[k],
                        ) by {
                            if k < v0.len() {
                                assert(vars@[k] == v0[k]);
                            }
                        }
                    }
                    let r = body.build_net(net, definitions, vars, Ghost(bound));
                    let ghost v1 = vars@;
                    vars.pop();
                    proof {
                        assert forall|k: int| 0 <= k < vars@.len() implies net.valid(
                            #[trigger] vars@[k],
                        ) by {
                            assert(vars@[k] == v1[k]);
                        }
                    }
                    r
                } else {
                    let (principal, left, right) = net.add(AgentType::Delta);
                    vars.push(left);
                    proof {
                        assert forall|k: int| 0 <= k < vars@.len() implies net.valid(
                            #[trigger] vars@[k],
                        ) by {
                            if k < v0.len() {
                                assert(vars@[k] == v0[k]);
                                assert(n0.valid(v0[k]));
                            }
                        }
                    }
                    let ghost n1 = *net;
                    let b = body.build_net(net, definitions, vars, Ghost(bound));
                    let ghost v1 = vars@;
                    vars.pop();
                    proof {
                        assert forall|k: int| 0 <= k < vars@.len() implies net.valid(
                            #[trigger] vars@[k],
                        ) by {
                            assert(vars@[k] == v1[k]);
                        }
                        assert(net.agents()[principal.agent as int].tag == n1.agents()[principal.agent as int].tag);
                    }
                    match b {
                        Ok(b) => {
                            net.connect(right, b);
                            Ok(principal)
                        },
                        Err(e) => Err(e),
                    }
                }
            },
            Term::Duplicate { expression, body } => {
                let e = expression.build_net(net, definitions, vars, Ghost(bound))?;
                let ghost v1 = vars@;
                vars.push(e);
                proof {
                    assert forall|k: int| 0 <= k < vars@.len() implies net.valid(
                        #[trigger] vars@[k],
                    ) by {
                        if k < v1.len() {
                            assert(vars@[k] == v1[k]);
                        }
                    }
                }
                let b = body.build_net(net, definitions, vars, Ghost(bound));
                let ghost v2 = vars@;
                vars.pop();
                proof {
                    assert forall|k: int| 0 <= k < vars@.len() implies net.valid(
                        #[trigger] vars@[k],
                    ) by {
                        assert(vars@[k] == v2[k]);
                    }
                }
                b
            },
            Term::Apply { function, argument, erased } => {
                if *erased {
                    function.build_net(net, definitions, vars, Ghost(bound))
                } else {
                    let (principal, left, right) = net.add(AgentType::Delta);
                    proof {
                        lemma_vars_valid_grow(n0, *net, v0);
                    }
                    let f = function.build_net(net, definitions, vars, Ghost(bound))?;
                    let ghost n1 = *net;
                    net.connect(principal, f);
                    proof {
                        lemma_vars_valid_grow(n1, *net, vars@);
                    }
                    let a = argument.build_net(net, definitions, vars, Ghost(bound))?;
                    let ghost n2 = *net;
                    net.connect(left, a);
                    proof {
                        lemma_vars_valid_grow(n2, *net, vars@);
                    }
                    Ok(right)
                }
            },
            Term::Universe | Term::Function { .. } | Term::Wrap(_) => Err(
                NetError::TypedTerm(self.copy()),
            ),
        }
    }
}

/// Marks the builders this crate provides `NetBuilderExt` for.
pub trait Sealed {}

impl Sealed for Net {}

/// Compiles checked terms into nets.
pub trait NetBuilderExt: Sealed {
    /// Compiles `terms` into a fresh net whose root is connected to the
    /// term's value.
    fn build_net(terms: Stratified<'_>) -> (r: Result<Net, NetError>)
        requires
            terms.wf(),
        ensures
            compiled_net(terms.term(), terms.definitions()@, r),
            r matches Ok(net) ==> net.wf(),
    ;
}

impl NetBuilderExt for Net {
    fn build_net(terms: Stratified<'_>) -> (r: Result<Net, NetError>) {
        compile(terms)
    }
}

/// The net that compiling the closed term `t` gives, with `defs` as the
/// definitions: compiled from an empty net and an empty binder stack, with
/// the root then connected to the value; or the error met on the way.
pub open spec fn compiled_net(t: Term, defs: Seq<Term>, r: Result<Net, NetError>) -> bool {
    let c = compiled(t, defs, defs.len() + 1, empty_model(), Seq::empty());
    match r {
        Ok(net) => c.2 is Ok && net.model() == m_connect(c.0, c.2->Ok_0, root_port()),
        Err(e) => c.2 == Err::<Port, NetError>(e),
    }
}

/// Compiles `terms` into a fresh net whose root is connected to the term's
/// value.
pub fn compile(terms: Stratified<'_>) -> (r: Result<Net, NetError>)
    requires
        terms.wf(),
    ensures
        (r is Ok) == compiles(
            terms.term(),
            terms.definitions()@,
            terms.definitions()@.len() + 1,
            0,
        ),
        compiled_net(terms.term(), terms.definitions()@, r),
        r matches Ok(net) ==> {
            &&& net.wf()
            &&& net.valid(net.root())
            &&& net.freed().len() == 0
            &&& net.target(net.root()) == root_port()
        },
        r matches Err(NetError::TypedTerm(_)) ==> has_typed_value(
            terms.term(),
            terms.definitions()@,
            terms.definitions()@.len() + 1,
        ),
        (terms.term() is Universe || terms.term() is Function || terms.term() is Wrap) ==> r
            == Err::<Net, NetError>(NetError::TypedTerm(terms.term())),
        r matches Err(NetError::TypedTerm(_)) || r matches Err(NetError::UnboundVariable(_))
            || r is Ok,
{
    let mut net = Net::new();
    let mut vars: Vec<Port> = Vec::new();
    let definitions = terms.as_definitions();
    let term = terms.as_term();
    proof {
        lemma_refs_ok_top(*term, definitions@.len());
    }
    let entry = term.build_net(&mut net, definitions, &mut vars, Ghost(definitions@.len() + 1))?;
    Ok(net.build(entry))
}

/// A checked term whose variables all refer to enclosing binders, and in
/// which no type-level term stands where a value is needed, compiles.
pub proof fn lemma_compile_total(t: Term, defs: Definitions, bound: nat, depth: nat)
    requires
        defs.wf(),
        refs_ok(t, defs@.len(), bound),
        check(t, defs@, bound) is Ok,
        scoped(t, depth as int),
        !has_typed_value(t, defs@, bound),
    ensures
        compiles(t, defs@, bound, depth),
    decreases bound, t,
{
    match t {
        Term::Lambda { body, .. } => lemma_compile_total(*body, defs, bound, depth + 1),
        Term::Apply { function, argument, erased } => {
            lemma_compile_total(*function, defs, bound, depth);
            if !erased {
                lemma_compile_total(*argument, defs, bound, depth);
            }
        },
        Term::Put(x) => lemma_compile_total(*x, defs, bound, depth),
        Term::Annotation { expression, .. } => lemma_compile_total(*expression, defs, bound, depth),
        Term::Duplicate { expression, body } => {
            lemma_compile_total(*expression, defs, bound, depth);
            lemma_compile_total(*body, defs, bound, depth + 1);
        },
        Term::Reference(n) => {
            let d = defs@[n as int];
            lemma_refs_below_ok(d, defs@.len(), n as nat);
            lemma_scoped_wider(d, 0, depth as int);
            lemma_compile_total(d, defs, n as nat, depth);
        },
        _ => {},
    }
}

/// Every checked closed term in which no type-level term stands where a
/// value is needed compiles.
pub proof fn lemma_stratified_compiles(t: Term, defs: Definitions)
    requires
        defs.wf(),
        stratification(t, defs@) is Ok,
        scoped(t, 0),
        !has_typed_value(t, defs@, defs@.len() + 1),
    ensures
        compiles(t, defs@, defs@.len() + 1, 0),
{
    lemma_refs_ok_top(t, defs@.len());
    lemma_compile_total(t, defs, defs@.len() + 1, 0);
}

/// The single Delta whose left and right ports are wired to each other: the
/// compiled identity, before its principal port is connected.
pub open spec fn looped_delta() -> Model {
    (
        seq![Agent { tag: AgentType::Delta, principal: pp(0), left: rp(0), right: lp(0) }],
        Seq::empty(),
        Seq::empty(),
        root_port(),
    )
}

/// The identity compiles to one Delta whose right port faces its left port,
/// its value the Delta's principal port; no fan is added.
pub proof fn lemma_identity_net(defs: Seq<Term>, bound: nat)
    ensures
        compiled(
            Term::Lambda { body: Box::new(Term::Variable(Index(0))), erased: false },
            defs,
            bound,
            empty_model(),
            Seq::empty(),
        ) == (looped_delta(), Seq::<Port>::empty(), Ok::<Port, NetError>(pp(0))),
{
    let m1 = m_add(empty_model(), AgentType::Delta).0;
    assert(m_target(m1, lp(0)) == lp(0));
    let body = Term::Variable(Index(0));
    assert(compiled(body, defs, bound, m1, seq![lp(0)]) == (m1, seq![lp(0)], Ok::<Port, NetError>(lp(0))));
    assert(seq![lp(0)].drop_last() =~= Seq::<Port>::empty());
    assert(m_connect(m1, rp(0), lp(0)).0 =~= looped_delta().0);
    assert(Seq::<Port>::empty().push(lp(0)) =~= seq![lp(0)]);
}

/// A lambda whose body applies its variable to an erased use of it compiles
/// as the identity does: one Delta looped on itself, and no fan.
pub proof fn lemma_erased_argument_net(defs: Seq<Term>, bound: nat)
    ensures
        compiled(
            Term::Lambda {
                body: Box::new(
                    Term::Apply {
                        function: Box::new(Term::Variable(Index(0))),
                        argument: Box::new(Term::Variable(Index(0))),
                        erased: true,
                    },
                ),
                erased: false,
            },
            defs,
            bound,
            empty_model(),
            Seq::empty(),
        ) == (looped_delta(), Seq::<Port>::empty(), Ok::<Port, NetError>(pp(0))),
{
    let m1 = m_add(empty_model(), AgentType::Delta).0;
    assert(m_target(m1, lp(0)) == lp(0));
    let var = Term::Variable(Index(0));
    assert(compiled(var, defs, bound, m1, seq![lp(0)]) == (m1, seq![lp(0)], Ok::<Port, NetError>(lp(0))));
    let app = Term::Apply { function: Box::new(var), argument: Box::new(var), erased: true };
    assert(compiled(app, defs, bound, m1, seq![lp(0)]) == (m1, seq![lp(0)], Ok::<Port, NetError>(lp(0))));
    assert(seq![lp(0)].drop_last() =~= Seq::<Port>::empty());
    assert(m_connect(m1, rp(0), lp(0)).0 =~= looped_delta().0);
    assert(Seq::<Port>::empty().push(lp(0)) =~= seq![lp(0)]);
}

/// The identity applied to the identity, compiled and connected to the
/// root, reduces with exactly one rewrite, an annihilation, and leaves the
/// argument's principal port as the net's value.
#[verifier::rlimit(100)]
pub proof fn lemma_round_trip(defs: Seq<Term>, fuel: nat)
    requires
        fuel >= 2,
    ensures
        ({
            let id = Term::Lambda { body: Box::new(Term::Variable(Index(0))), erased: false };
            let t = Term::Apply { function: Box::new(id), argument: Box::new(id), erased: false };
            let c = compiled(t, defs, defs.len() + 1, empty_model(), Seq::empty());
            &&& c.2 == Ok::<Port, NetError>(rp(0))
            &&& m_reduce(m_connect(c.0, rp(0), root_port()), fuel).1 == Some(1nat)
            &&& m_reduce(m_connect(c.0, rp(0), root_port()), fuel).0.3 == pp(2)
        }),
{
    let id = Term::Lambda { body: Box::new(Term::Variable(Index(0))), erased: false };
    let bound = defs.len() + 1;
    let var = Term::Variable(Index(0));
    let m1 = m_add(empty_model(), AgentType::Delta).0;
    let m2 = m_add(m1, AgentType::Delta).0;
    assert(m_target(m2, lp(1)) == lp(1));
    assert(compiled(var, defs, bound, m2, seq![lp(1)]) == (m2, seq![lp(1)], Ok::<Port, NetError>(lp(1))));
    assert(Seq::<Port>::empty().push(lp(1)) =~= seq![lp(1)]);
    assert(seq![lp(1)].drop_last() =~= Seq::<Port>::empty());
    let m3 = m_connect(m2, rp(1), lp(1));
    assert(compiled(id, defs, bound, m1, Seq::empty()) == (m3, Seq::<Port>::empty(), Ok::<Port, NetError>(pp(1))));
    let m4 = m_connect(m3, pp(0), pp(1));
    let m5 = m_add(m4, AgentType::Delta).0;
    assert(m_target(m5, lp(2)) == lp(2));
    assert(Seq::<Port>::empty().push(lp(2)) =~= seq![lp(2)]);
    assert(compiled(var, defs, bound, m5, seq![lp(2)]) == (m5, seq![lp(2)], Ok::<Port, NetError>(lp(2))));
    let m6 = m_connect(m5, rp(2), lp(2));
    assert(compiled(id, defs, bound, m4, Seq::empty()) == (m6, Seq::<Port>::empty(), Ok::<Port, NetError>(pp(2))));
    let m7 = m_connect(m6, lp(0), pp(2));
    let n = m_connect(m7, rp(0), root_port());
    assert(n.2 =~= seq![0usize]);
    assert(n.0.len() == 3);
    assert(n.0[0].principal == pp(1) && n.0[1].principal == pp(0));
    assert(n.0[0].tag == n.0[1].tag);
    let n0 = (n.0, n.1, n.2.drop_last(), n.3);
    assert(n0.2 =~= Seq::<usize>::empty());
    let after = m_annihilate(n0, 0, 1);
    assert(m_target(n0, lp(0)) == pp(2));
    assert(m_target(n0, lp(1)) == rp(1));
    let a1 = m_connect(n0, pp(2), rp(1));
    assert(a1.2 =~= Seq::<usize>::empty());
    assert(m_target(a1, rp(0)) == root_port());
    assert(m_target(a1, rp(1)) == pp(2));
    assert(after.2 =~= Seq::<usize>::empty());
    assert(after.3 == pp(2));
    assert(m_step(n) == (after, Step::Rewrote));
    assert(m_step(after) == (after, Step::Done));
    assert(m_reduce(after, (fuel - 1) as nat) == (after, Some(0nat)));
}

/// A term scoped under some binders stays scoped under more.
pub proof fn lemma_scoped_wider(t: Term, a: int, b: int)
    requires
        scoped(t, a),
        a <= b,
    ensures
        scoped(t, b),
    decreases t,
{
    match t {
        Term::Lambda { body, .. } => lemma_scoped_wider(*body, a + 1, b + 1),
        Term::Apply { function, argument, .. } => {
            lemma_scoped_wider(*function, a, b);
            lemma_scoped_wider(*argument, a, b);
        },
        Term::Put(x) | Term::Wrap(x) => lemma_scoped_wider(*x, a, b),
        Term::Duplicate { expression, body } => {
            lemma_scoped_wider(*expression, a, b);
            lemma_scoped_wider(*body, a + 1, b + 1);
        },
        Term::Function { argument_type, return_type, .. } => {
            lemma_scoped_wider(*argument_type, a, b);
            lemma_scoped_wider(*return_type, a + 1, b + 1);
        },
        Term::Annotation { expression, ty, .. } => {
            lemma_scoped_wider(*expression, a, b);
            lemma_scoped_wider(*ty, a, b);
        },
        _ => {},
    }
}

proof fn lemma_vars_valid_grow(a: Net, b: Net, vars: Seq<Port>)
    requires
        vars_valid(a, vars),
        b.agents().len() >= a.agents().len(),
    ensures
        vars_valid(b, vars),
{
    assert forall|k: int| 0 <= k < vars.len() implies b.valid(#[trigger] vars[k]) by {
        assert(a.valid(vars[k]));
    }
}

} // verus!
