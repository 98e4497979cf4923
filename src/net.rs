use vstd::prelude::*;

verus! {

/// The slot number that stands for the net's single external interface point,
/// the root. No agent is ever stored there.
pub const ROOT: usize = usize::MAX;

/// The tag of an agent: a binary combinator, which encodes both abstraction
/// and application, or a fan, which shares one binding among several uses.
#[derive(Debug, Clone, Copy, PartialEq, Eq, Structural)]
pub enum AgentType {
    Delta,
    Zeta,
}

/// Which of an agent's three ports is meant.
#[derive(Debug, Clone, Copy, PartialEq, Eq, Structural)]
pub enum Role {
    Principal,
    Left,
    Right,
}

/// One port of one agent; the agent `ROOT` is the root.
#[derive(Debug, Clone, Copy, PartialEq, Eq, Structural)]
pub struct Port {
    pub agent: usize,
    pub role: Role,
}

/// An agent: its tag and, for each of its ports, the port at the other end of
/// that port's edge. A port that is not connected holds itself.
#[derive(Debug, Clone, Copy, PartialEq, Eq, Structural)]
pub struct Agent {
    pub tag: AgentType,
    pub principal: Port,
    pub left: Port,
    pub right: Port,
}

impl Agent {
    pub open spec fn port(self, role: Role) -> Port {
        match role {
            Role::Principal => self.principal,
            Role::Left => self.left,
            Role::Right => self.right,
        }
    }

    pub open spec fn with_port(self, role: Role, p: Port) -> Agent {
        match role {
            Role::Principal => Agent { principal: p, ..self },
            Role::Left => Agent { left: p, ..self },
            Role::Right => Agent { right: p, ..self },
        }
    }

    /// A fresh agent in slot `slot`, none of whose ports is connected.
    pub open spec fn fresh(tag: AgentType, slot: usize) -> Agent {
        Agent {
            tag,
            principal: Port { agent: slot, role: Role::Principal },
            left: Port { agent: slot, role: Role::Left },
            right: Port { agent: slot, role: Role::Right },
        }
    }

    fn port_of(&self, role: Role) -> (r: Port)
        ensures
            r == self.port(role),
    {
        match role {
            Role::Principal => self.principal,
            Role::Left => self.left,
            Role::Right => self.right,
        }
    }

    fn set_port(&mut self, role: Role, p: Port)
        ensures
            *final(self) == old(self).with_port(role, p),
    {
        match role {
            Role::Principal => self.principal = p,
            Role::Left => self.left = p,
            Role::Right => self.right = p,
        }
    }
}

/// An interaction net: an arena of agents, the slots free for reuse, and the
/// slots of agents that may take part in a redex.
pub struct Net {
    agents: Vec<Agent>,
    freed: Vec<usize>,
    active: Vec<usize>,
    root: Port,
}

/// The root, the net's single external interface point.
pub open spec fn root_port() -> Port {
    Port { agent: ROOT, role: Role::Principal }
}

/// A net as plain values: its arena, free slots, queued slots and the port
/// connected to the root.
pub type Model = (Seq<Agent>, Seq<usize>, Seq<usize>, Port);

/// The far end of `p`'s edge in `m`.
pub open spec fn m_target(m: Model, p: Port) -> Port {
    if p.agent == ROOT {
        m.3
    } else {
        m.0[p.agent as int].port(p.role)
    }
}

/// `m` with the far end of `p`'s edge set to `q`.
pub open spec fn m_set(m: Model, p: Port, q: Port) -> Model {
    if p.agent == ROOT {
        (m.0, m.1, m.2, q)
    } else {
        (m.0.update(p.agent as int, m.0[p.agent as int].with_port(p.role, q)), m.1, m.2, m.3)
    }
}

/// `m` after `connect(a, b)`: both ends set, and the pair queued when both
/// are principal ports of agents.
pub open spec fn m_connect(m: Model, a: Port, b: Port) -> Model {
    let m2 = m_set(m_set(m, a, b), b, a);
    if a.role == Role::Principal && b.role == Role::Principal && a.agent != ROOT && b.agent != ROOT {
        (m2.0, m2.1, m2.2.push(a.agent), m2.3)
    } else {
        m2
    }
}

/// `m` after `add(tag)`, with the slot handed out: the last free slot if
/// there is one, else a new slot at the end of the arena.
pub open spec fn m_add(m: Model, tag: AgentType) -> (Model, usize) {
    if m.1.len() > 0 {
        let s = m.1.last();
        ((m.0.update(s as int, Agent::fresh(tag, s)), m.1.drop_last(), m.2, m.3), s)
    } else {
        let s = m.0.len() as usize;
        ((m.0.push(Agent::fresh(tag, s)), m.1, m.2, m.3), s)
    }
}

/// `m` with slot `s` put on the free list.
pub open spec fn m_free(m: Model, s: usize) -> Model {
    (m.0, m.1.push(s), m.2, m.3)
}

/// `m` after annihilating `i` and `k`: the far ends of their left ports are
/// connected, then those of their right ports, and both slots are freed.
pub open spec fn m_annihilate(m: Model, i: usize, k: usize) -> Model {
    let m1 = m_connect(m, m_target(m, lp(i)), m_target(m, lp(k)));
    let m2 = m_connect(m1, m_target(m1, rp(i)), m_target(m1, rp(k)));
    m_free(m_free(m2, i), k)
}

/// `m` after commuting `i` and `k`, with the slots of the two copies of `i`
/// and the two of `k`: the copies are added, their auxiliary ports
/// cross-connected, the far ends of `i`'s auxiliary ports connected to the
/// copies of `k` and those of `k`'s to the copies of `i`, and `i` and `k`
/// freed.
pub open spec fn m_commute(m: Model, i: usize, k: usize) -> (Model, (usize, usize, usize, usize)) {
    let ti = m.0[i as int].tag;
    let tk = m.0[k as int].tag;
    let (m1, a1) = m_add(m, ti);
    let (m2, a2) = m_add(m1, ti);
    let (m3, b1) = m_add(m2, tk);
    let (m4, b2) = m_add(m3, tk);
    let m5 = m_connect(
        m_connect(m_connect(m_connect(m4, lp(a1), lp(b1)), rp(a1), lp(b2)), lp(a2), rp(b1)),
        rp(a2),
        rp(b2),
    );
    let m6 = m_connect(m5, m_target(m5, lp(i)), pp(b1));
    let m7 = m_connect(m6, m_target(m6, rp(i)), pp(b2));
    let m8 = m_connect(m7, m_target(m7, lp(k)), pp(a1));
    let m9 = m_connect(m8, m_target(m8, rp(k)), pp(a2));
    (m_free(m_free(m9, i), k), (a1, a2, b1, b2))
}

/// One step of reduction on `m`: the last queued slot is taken; if it and
/// the agent its principal port faces form a redex, the law their tags
/// select is applied.
pub open spec fn m_step(m: Model) -> (Model, Step) {
    if m.2.len() == 0 {
        (m, Step::Done)
    } else {
        let i = m.2.last();
        let m0 = (m.0, m.1, m.2.drop_last(), m.3);
        let p = m.0[i as int].principal;
        if p.agent == ROOT || p.role != Role::Principal || p.agent == i {
            (m0, Step::Skipped)
        } else {
            let k = p.agent;
            let q = m.0[k as int].principal;
            if q.agent != i || q.role != Role::Principal {
                (m0, Step::Skipped)
            } else if m.0[i as int].tag == m.0[k as int].tag {
                (m_annihilate(m0, i, k), Step::Rewrote)
            } else {
                (m_commute(m0, i, k).0, Step::Rewrote)
            }
        }
    }
}

/// Up to `fuel` steps on `m`: the net after, and the number of rewrites if
/// the queue ran empty, `None` if the fuel ran out first.
pub open spec fn m_reduce(m: Model, fuel: nat) -> (Model, Option<nat>)
    decreases fuel,
{
    if fuel == 0 {
        (m, if m.2.len() == 0 { Some(0) } else { None })
    } else {
        let (m1, st) = m_step(m);
        match st {
            Step::Done => (m, Some(0)),
            Step::Skipped => m_reduce(m1, (fuel - 1) as nat),
            Step::Rewrote => {
                counted(m_reduce(m1, (fuel - 1) as nat), 1)
            },
        }
    }
}

/// A reduction's outcome with `c` more rewrites counted.
pub open spec fn counted(res: (Model, Option<nat>), c: nat) -> (Model, Option<nat>) {
    (res.0, match res.1 {
        Some(x) => Some(x + c),
        None => None,
    })
}

/// The model of an empty net.
pub open spec fn empty_model() -> Model {
    (Seq::empty(), Seq::empty(), Seq::empty(), root_port())
}

/// What one step of reduction did.
#[derive(Debug, Clone, Copy, PartialEq, Eq, Structural)]
pub enum Step {
    /// Nothing was left to reduce.
    Done,
    /// The queued slot was not part of a redex any more.
    Skipped,
    /// A redex was rewritten.
    Rewrote,
}

/// What a net's parts must satisfy: every port held by an agent, and the
/// root's port, is a port of an arena of `agents.len()` slots or the root,
/// and every free or queued slot lies in the arena.
pub open spec fn parts_ok(agents: Seq<Agent>, freed: Seq<usize>, active: Seq<usize>, root: Port) -> bool {
    &&& agents.len() <= ROOT
    &&& port_ok(root, agents.len())
    &&& forall|i: int, r: Role| 0 <= i < agents.len() ==> port_ok(#[trigger] agents[i].port(r), agents.len())
    &&& forall|k: int| 0 <= k < freed.len() ==> #[trigger] freed[k] < agents.len()
    &&& forall|k: int| 0 <= k < active.len() ==> #[trigger] active[k] < agents.len()
    &&& freed.no_duplicates()
}

pub open spec fn port_ok(p: Port, len: nat) -> bool {
    p.agent < len || p == root_port()
}

fn check_port(p: Port, len: usize) -> (r: bool)
    ensures
        r == port_ok(p, len as nat),
{
    p.agent < len || (p.agent == ROOT && p.role == Role::Principal)
}

fn no_repeats(slots: &Vec<usize>, len: usize) -> (r: bool)
    requires
        forall|k: int| 0 <= k < slots@.len() ==> #[trigger] slots@[k] < len,
    ensures
        r == slots@.no_duplicates(),
{
    let mut seen: Vec<bool> = Vec::new();
    while seen.len() < len
        invariant
            seen@.len() <= len,
            forall|j: int| 0 <= j < seen@.len() ==> !(#[trigger] seen@[j]),
        decreases len - seen@.len(),
    {
        seen.push(false);
    }
    let mut k: usize = 0;
    while k < slots.len()
        invariant
            k <= slots@.len(),
            seen@.len() == len,
            forall|m: int| 0 <= m < slots@.len() ==> #[trigger] slots@[m] < len,
            forall|j: int| 0 <= j < len ==> (#[trigger] seen@[j] <==> exists|a: int| 0 <= a < k && slots@[a] == j),
            forall|a: int, b: int| 0 <= a < b < k ==> slots@[a] != slots@[b],
        decreases slots@.len() - k,
    {
        let s = slots[k];
        if seen[s] {
            let ghost a = choose|a: int| 0 <= a < k && slots@[a] == s;
            assert(slots@[a] == slots@[k as int]);
            return false;
        }
        seen.set(s, true);
        proof {
            assert forall|j: int| 0 <= j < len implies (#[trigger] seen@[j] <==> exists|a: int| 0 <= a < k + 1 && slots@[a] == j) by {
                if j == s as int {
                    assert(slots@[k as int] == j);
                }
            }
        }
        k = k + 1;
    }
    true
}

fn all_below(slots: &Vec<usize>, len: usize) -> (r: bool)
    ensures
        r == forall|k: int| 0 <= k < slots@.len() ==> #[trigger] slots@[k] < len,
{
    let mut k: usize = 0;
    while k < slots.len()
        invariant
            k <= slots@.len(),
            forall|j: int| 0 <= j < k ==> #[trigger] slots@[j] < len,
        decreases slots@.len() - k,
    {
        if slots[k] >= len {
            return false;
        }
        k = k + 1;
    }
    true
}

/// A port that a commutation of agents `i` and `k` in `net` leaves alone: a
/// port of a live agent other than the two, and not the far end of either
/// agent's auxiliary ports.
pub open spec fn kept(net: Net, i: usize, k: usize, o: Port) -> bool {
    &&& net.valid(o)
    &&& o.agent != i
    &&& o.agent != k
    &&& !net.freed().contains(o.agent)
    &&& o != net.target(Port { agent: i, role: Role::Left })
    &&& o != net.target(Port { agent: i, role: Role::Right })
    &&& o != net.target(Port { agent: k, role: Role::Left })
    &&& o != net.target(Port { agent: k, role: Role::Right })
}

/// A port that a commutation of `i` and `k`, begun on `n0`, may rewire.
spec fn touched(n0: Net, i: usize, k: usize, p: Port) -> bool {
    ||| p.agent == i
    ||| p.agent == k
    ||| (p.agent >= n0.agents().len() && p.agent != ROOT)
    ||| n0.freed().contains(p.agent)
    ||| p == n0.target(Port { agent: i, role: Role::Left })
    ||| p == n0.target(Port { agent: i, role: Role::Right })
    ||| p == n0.target(Port { agent: k, role: Role::Left })
    ||| p == n0.target(Port { agent: k, role: Role::Right })
}

spec fn aux_touched(n0: Net, i: usize, k: usize, net: Net) -> bool {
    &&& touched(n0, i, k, net.target(Port { agent: i, role: Role::Left }))
    &&& touched(n0, i, k, net.target(Port { agent: i, role: Role::Right }))
    &&& touched(n0, i, k, net.target(Port { agent: k, role: Role::Left }))
    &&& touched(n0, i, k, net.target(Port { agent: k, role: Role::Right }))
}

spec fn frame_kept(n0: Net, i: usize, k: usize, net: Net) -> bool {
    forall|o: Port| kept(n0, i, k, o) ==> #[trigger] net.target(o) == n0.target(o)
}

spec fn rewrite_ok(n0: Net, i: usize, k: usize, net: Net) -> bool {
    &&& net.wf()
    &&& i < n0.agents().len()
    &&& k < n0.agents().len()
    &&& net.agents().len() >= n0.agents().len()
    &&& forall|s: usize| net.freed().contains(s) ==> n0.freed().contains(s)
    &&& aux_touched(n0, i, k, net)
    &&& frame_kept(n0, i, k, net)
}

/// After rewriting the redex of `i` and `k` in `n0` into `n1`, the far ends
/// of the two left ports face each other, and likewise those of the two right
/// ports, whenever those four far ends are distinct ports of other agents.
pub open spec fn joins_neighbours(n0: Net, n1: Net, i: usize, k: usize) -> bool {
    let a = n0.target(Port { agent: i, role: Role::Left });
    let b = n0.target(Port { agent: k, role: Role::Left });
    let c = n0.target(Port { agent: i, role: Role::Right });
    let d = n0.target(Port { agent: k, role: Role::Right });
    (a.agent != i && a.agent != k && b.agent != i && b.agent != k && c.agent != i && c.agent != k
        && d.agent != i && d.agent != k && a != c && a != d && b != c && b != d) ==> {
        &&& n1.target(a) == b
        &&& n1.target(b) == a
        &&& n1.target(c) == d
        &&& n1.target(d) == c
    }
}

/// The redex of `i` and `k` in `n0` is clear for commutation: both agents and
/// the agents of the four far ends of their auxiliary ports are live, the
/// free list holds no slot twice, and the four far ends are distinct ports of
/// agents other than `i` and `k`.
pub open spec fn commute_clear(n0: Net, i: usize, k: usize) -> bool {
    let e1 = n0.target(Port { agent: i, role: Role::Left });
    let e2 = n0.target(Port { agent: i, role: Role::Right });
    let e3 = n0.target(Port { agent: k, role: Role::Left });
    let e4 = n0.target(Port { agent: k, role: Role::Right });
    &&& n0.freed().no_duplicates()
    &&& !n0.freed().contains(i)
    &&& !n0.freed().contains(k)
    &&& e1 != e2 && e1 != e3 && e1 != e4 && e2 != e3 && e2 != e4 && e3 != e4
    &&& e1.agent != i && e1.agent != k && !n0.freed().contains(e1.agent)
    &&& e2.agent != i && e2.agent != k && !n0.freed().contains(e2.agent)
    &&& e3.agent != i && e3.agent != k && !n0.freed().contains(e3.agent)
    &&& e4.agent != i && e4.agent != k && !n0.freed().contains(e4.agent)
}

/// Each end of the edge is the other's far end.
pub open spec fn linked(n: Net, a: Port, b: Port) -> bool {
    n.target(a) == b && n.target(b) == a
}

pub open spec fn pp(s: usize) -> Port {
    Port { agent: s, role: Role::Principal }
}

pub open spec fn lp(s: usize) -> Port {
    Port { agent: s, role: Role::Left }
}

pub open spec fn rp(s: usize) -> Port {
    Port { agent: s, role: Role::Right }
}

/// The wiring a commutation of `i` and `k` in `n0` leaves in `n1`, with
/// `a1`, `a2` the new copies of `i` and `b1`, `b2` those of `k`: the far ends
/// of `i`'s left and right ports face the principal ports of `b1` and `b2`,
/// those of `k`'s face `a1` and `a2`, and the copies' auxiliary ports are
/// cross-connected.
pub open spec fn commuted(n0: Net, n1: Net, i: usize, k: usize, a1: usize, a2: usize, b1: usize, b2: usize) -> bool {
    &&& a1 != a2 && a1 != b1 && a1 != b2 && a2 != b1 && a2 != b2 && b1 != b2
    &&& a1 != i && a1 != k && a2 != i && a2 != k && b1 != i && b1 != k && b2 != i && b2 != k
    &&& a1 < n1.agents().len() && a2 < n1.agents().len() && b1 < n1.agents().len() && b2 < n1.agents().len()
    &&& n1.agents()[a1 as int].tag == n0.agents()[i as int].tag
    &&& n1.agents()[a2 as int].tag == n0.agents()[i as int].tag
    &&& n1.agents()[b1 as int].tag == n0.agents()[k as int].tag
    &&& n1.agents()[b2 as int].tag == n0.agents()[k as int].tag
    &&& linked(n1, n0.target(lp(i)), pp(b1))
    &&& linked(n1, n0.target(rp(i)), pp(b2))
    &&& linked(n1, n0.target(lp(k)), pp(a1))
    &&& linked(n1, n0.target(rp(k)), pp(a2))
    &&& linked(n1, lp(a1), lp(b1))
    &&& linked(n1, rp(a1), lp(b2))
    &&& linked(n1, lp(a2), rp(b1))
    &&& linked(n1, rp(a2), rp(b2))
}

/// The slot that an `add` from `a` to `b` handed out is in neither the free
/// list that is left nor that of `a`'s predecessors, and the free list stays
/// free of repeats.
proof fn lemma_fresh_slot(a: Net, b: Net, slot: usize)
    requires
        a.wf(),
        a.freed().no_duplicates(),
        a.freed().len() > 0 ==> slot == a.freed().last() && b.freed() == a.freed().drop_last(),
        a.freed().len() == 0 ==> slot == a.agents().len() && b.freed() == a.freed(),
    ensures
        !b.freed().contains(slot),
        b.freed().no_duplicates(),
        forall|x: usize| b.freed().contains(x) ==> a.freed().contains(x),
{
    if a.freed().len() > 0 {
        assert forall|x: usize| b.freed().contains(x) implies a.freed().contains(x) by {
            let j = choose|j: int| 0 <= j < b.freed().len() && b.freed()[j] == x;
            assert(a.freed()[j] == x);
        }
        if b.freed().contains(slot) {
            let j = choose|j: int| 0 <= j < b.freed().len() && b.freed()[j] == slot;
            assert(a.freed()[j] == a.freed()[a.freed().len() - 1]);
        }
    } else {
        if b.freed().contains(slot) {
            let j = choose|j: int| 0 <= j < b.freed().len() && b.freed()[j] == slot;
            assert(a.freed()[j] < a.agents().len());
        }
    }
}

impl Net {
    pub closed spec fn agents(&self) -> Seq<Agent> {
        self.agents@
    }

    pub closed spec fn freed(&self) -> Seq<usize> {
        self.freed@
    }

    pub closed spec fn active(&self) -> Seq<usize> {
        self.active@
    }

    /// The port connected to the root.
    pub closed spec fn root(&self) -> Port {
        self.root
    }

    pub open spec fn valid(&self, p: Port) -> bool {
        p.agent < self.agents().len() || p == root_port()
    }

    /// The port at the far end of `p`'s edge, or `p` itself when unconnected.
    pub open spec fn target(&self, p: Port) -> Port {
        if p.agent == ROOT {
            self.root()
        } else {
            self.agents()[p.agent as int].port(p.role)
        }
    }

    pub open spec fn wf(&self) -> bool {
        &&& self.agents().len() <= ROOT
        &&& self.valid(self.root())
        &&& forall|i: int, r: Role|
            0 <= i < self.agents().len() ==> self.valid(#[trigger] self.agents()[i].port(r))
        &&& forall|k: int| 0 <= k < self.freed().len() ==> #[trigger] self.freed()[k] < self.agents().len()
        &&& forall|k: int| 0 <= k < self.active().len() ==> #[trigger] self.active()[k] < self.agents().len()
    }

    /// The number of agents in use: the arena less the free slots.
    /// The net as plain values.
    pub open spec fn model(&self) -> Model {
        (self.agents(), self.freed(), self.active(), self.root())
    }

    pub open spec fn live_count(&self) -> int {
        self.agents().len() - self.freed().len()
    }

    /// An empty net.
    pub fn new() -> (r: Net)
        ensures
            r.model() == empty_model(),
            r.wf(),
            r.agents().len() == 0,
            r.freed().len() == 0,
            r.active().len() == 0,
            r.root() == (Port { agent: ROOT, role: Role::Principal }),
    {
        Net {
            agents: Vec::new(),
            freed: Vec::new(),
            active: Vec::new(),
            root: Port { agent: ROOT, role: Role::Principal },
        }
    }

    /// Adds a fresh agent with tag `tag` and returns its principal, left and
    /// right ports. A free slot is reused when there is one, the most recently
    /// freed first; only otherwise does the arena grow.
    pub fn add(&mut self, tag: AgentType) -> (r: (Port, Port, Port))
        requires
            old(self).wf(),
        ensures
            (final(self).model(), r.0.agent) == m_add(old(self).model(), tag),
            final(self).wf(),
            r.0 == (Port { agent: r.0.agent, role: Role::Principal }),
            r.1 == (Port { agent: r.0.agent, role: Role::Left }),
            r.2 == (Port { agent: r.0.agent, role: Role::Right }),
            r.0.agent < final(self).agents().len(),
            final(self).agents()[r.0.agent as int] == Agent::fresh(tag, r.0.agent),
            forall|i: int|
                0 <= i < old(self).agents().len() && i != r.0.agent ==> final(self).agents()[i]
                    == old(self).agents()[i],
            final(self).active() == old(self).active(),
            final(self).root() == old(self).root(),
            old(self).freed().len() > 0 ==> {
                &&& r.0.agent == old(self).freed().last()
                &&& final(self).agents().len() == old(self).agents().len()
                &&& final(self).freed() == old(self).freed().drop_last()
            },
            old(self).freed().len() == 0 ==> {
                &&& r.0.agent == old(self).agents().len()
                &&& final(self).agents().len() == old(self).agents().len() + 1
                &&& final(self).freed() == old(self).freed()
            },
    {
        let slot: usize = match self.freed.pop() {
            Some(s) => {
                let fresh = Agent {
                    tag,
                    principal: Port { agent: s, role: Role::Principal },
                    left: Port { agent: s, role: Role::Left },
                    right: Port { agent: s, role: Role::Right },
                };
                self.agents.set(s, fresh);
                s
            },
            None => {
                let s = self.agents.len();
                let fresh = Agent {
                    tag,
                    principal: Port { agent: s, role: Role::Principal },
                    left: Port { agent: s, role: Role::Left },
                    right: Port { agent: s, role: Role::Right },
                };
                self.agents.push(fresh);
                let n = self.agents.len();
                assert(s < n);
                s
            },
        };
        proof {
            assert(self.agents().len() >= old(self).agents().len());
            assert(self.root() == old(self).root());
            assert(old(self).valid(old(self).root()));
            assert forall|k: int| 0 <= k < self.active().len() implies #[trigger] self.active()[k]
                < self.agents().len() by {
                assert(self.active()[k] == old(self).active()[k]);
            }
            assert forall|i: int, r: Role|
                0 <= i < self.agents().len() implies self.valid(
                #[trigger] self.agents()[i].port(r),
            ) by {
                if i != slot {
                    assert(old(self).valid(old(self).agents()[i].port(r)));
                }
            }
            assert forall|k: int| 0 <= k < self.freed().len() implies #[trigger] self.freed()[k]
                < self.agents().len() by {
                assert(self.freed()[k] == old(self).freed()[k]);
            }
        }
        (
            Port { agent: slot, role: Role::Principal },
            Port { agent: slot, role: Role::Left },
            Port { agent: slot, role: Role::Right },
        )
    }

    fn set_target(&mut self, p: Port, q: Port)
        requires
            old(self).wf(),
            old(self).valid(p),
            old(self).valid(q),
        ensures
            final(self).model() == m_set(old(self).model(), p, q),
            final(self).wf(),
            final(self).agents().len() == old(self).agents().len(),
            final(self).freed() == old(self).freed(),
            final(self).active() == old(self).active(),
            final(self).target(p) == q,
            forall|o: Port|
                old(self).valid(o) && o != p ==> #[trigger] final(self).target(o) == old(
                    self,
                ).target(o),
            forall|i: int|
                0 <= i < old(self).agents().len() ==> (#[trigger] final(self).agents()[i]).tag
                    == old(self).agents()[i].tag,
    {
        if p.agent == ROOT {
            self.root = q;
            assert(self.agents() == old(self).agents());
        } else {
            let mut a = self.agents[p.agent];
            a.set_port(p.role, q);
            self.agents.set(p.agent, a);
            assert(self.agents() == old(self).agents().update(p.agent as int, a));
            assert(self.root() == old(self).root());
            assert forall|o: Port| old(self).valid(o) && o != p implies #[trigger] self.target(o)
                == old(self).target(o) by {
                if o.agent != ROOT {
                    if o.agent == p.agent {
                        assert(o.role != p.role);
                        assert(self.agents()[o.agent as int] == a);
                        assert(a == old(self).agents()[p.agent as int].with_port(p.role, q));
                    } else {
                        assert(self.agents()[o.agent as int] == old(self).agents()[o.agent as int]);
                    }
                }
            }
        }
        proof {
            assert forall|k: int| 0 <= k < self.active().len() implies #[trigger] self.active()[k]
                < self.agents().len() by {
                assert(self.active()[k] == old(self).active()[k]);
            }
            assert forall|k: int| 0 <= k < self.freed().len() implies #[trigger] self.freed()[k]
                < self.agents().len() by {
                assert(self.freed()[k] == old(self).freed()[k]);
            }
            assert forall|i: int, r: Role|
                0 <= i < self.agents().len() implies self.valid(
                #[trigger] self.agents()[i].port(r),
            ) by {
                assert(old(self).valid(old(self).agents()[i].port(r)));
            }
        }
    }

    /// Wires `a` and `b` together as one edge, replacing any edge either had.
    /// When both are principal ports of agents, the pair is queued as a redex.
    pub fn connect(&mut self, a: Port, b: Port)
        requires
            old(self).wf(),
            old(self).valid(a),
            old(self).valid(b),
        ensures
            final(self).model() == m_connect(old(self).model(), a, b),
            final(self).wf(),
            final(self).agents().len() == old(self).agents().len(),
            final(self).freed() == old(self).freed(),
            final(self).target(a) == b,
            final(self).target(b) == a,
            forall|o: Port|
                old(self).valid(o) && o != a && o != b ==> #[trigger] final(self).target(o) == old(
                    self,
                ).target(o),
            forall|i: int|
                0 <= i < old(self).agents().len() ==> (#[trigger] final(self).agents()[i]).tag
                    == old(self).agents()[i].tag,
            final(self).active() == if a.role == Role::Principal && b.role == Role::Principal
                && a.agent != ROOT && b.agent != ROOT {
                old(self).active().push(a.agent)
            } else {
                old(self).active()
            },
    {
        self.set_target(a, b);
        self.set_target(b, a);
        let ghost mid = *self;
        if a.role == Role::Principal && b.role == Role::Principal && a.agent != ROOT && b.agent
            != ROOT {
            self.active.push(a.agent);
        }
        proof {
            assert(self.agents() == mid.agents() && self.root() == mid.root());
            assert forall|o: Port| #[trigger] self.target(o) == mid.target(o) by {}
            assert forall|k: int| 0 <= k < self.active().len() implies #[trigger] self.active()[k]
                < self.agents().len() by {
                if k < mid.active().len() {
                    assert(self.active()[k] == mid.active()[k]);
                }
            }
        }
    }

    /// The port at the far end of `p`'s edge, or `p` itself when unconnected.
    pub fn follow(&self, p: Port) -> (r: Port)
        requires
            self.wf(),
            self.valid(p),
        ensures
            r == self.target(p),
            self.valid(r),
    {
        if p.agent == ROOT {
            self.root
        } else {
            self.agents[p.agent].port_of(p.role)
        }
    }

    /// Whether `p` is the root.
    pub fn is_root(&self, p: Port) -> (r: bool)
        ensures
            r == (p.agent == ROOT),
    {
        p.agent == ROOT
    }

    /// Ends construction, connecting `entry` to the root.
    pub fn build(self, entry: Port) -> (r: Net)
        requires
            self.wf(),
            self.valid(entry),
        ensures
            r.model() == m_connect(self.model(), entry, root_port()),
            r.wf(),
            r.agents().len() == self.agents().len(),
            r.freed() == self.freed(),
            r.active() == self.active(),
            r.root() == entry,
            r.target(entry) == (Port { agent: ROOT, role: Role::Principal }),
            forall|o: Port|
                self.valid(o) && o != entry && o.agent != ROOT ==> #[trigger] r.target(o)
                    == self.target(o),
    {
        let root = Port { agent: ROOT, role: Role::Principal };
        let mut net = self;
        net.connect(entry, root);
        net
    }

    /// Whether agents `i` and `k` face each other through their principal
    /// ports: a redex.
    pub open spec fn is_redex(&self, i: usize, k: usize) -> bool {
        &&& i < self.agents().len()
        &&& k < self.agents().len()
        &&& i != k
        &&& self.agents()[i as int].principal == (Port { agent: k, role: Role::Principal })
        &&& self.agents()[k as int].principal == (Port { agent: i, role: Role::Principal })
    }

    fn free(&mut self, i: usize)
        requires
            old(self).wf(),
            i < old(self).agents().len(),
        ensures
            final(self).model() == m_free(old(self).model(), i),
            final(self).wf(),
            final(self).agents() == old(self).agents(),
            final(self).active() == old(self).active(),
            final(self).root() == old(self).root(),
            final(self).freed() == old(self).freed().push(i),
    {
        self.freed.push(i);
        proof {
            assert forall|k: int| 0 <= k < self.active().len() implies #[trigger] self.active()[k]
                < self.agents().len() by {
                assert(self.active()[k] == old(self).active()[k]);
            }
            assert forall|k: int| 0 <= k < self.freed().len() implies #[trigger] self.freed()[k]
                < self.agents().len() by {
                if k < old(self).freed().len() {
                    assert(self.freed()[k] == old(self).freed()[k]);
                }
            }
        }
    }

    /// Rewrites a redex of two agents with the same tag: the neighbours of
    /// their left ports are joined, then those of their right ports, and both
    /// slots are freed.
    pub fn annihilate(&mut self, i: usize, k: usize)
        requires
            old(self).wf(),
            old(self).is_redex(i, k),
            old(self).agents()[i as int].tag == old(self).agents()[k as int].tag,
        ensures
            final(self).model() == m_annihilate(old(self).model(), i, k),
            final(self).wf(),
            final(self).agents().len() == old(self).agents().len(),
            final(self).freed() == old(self).freed().push(i).push(k),
            final(self).live_count() == old(self).live_count() - 2,
            forall|o: Port| kept(*old(self), i, k, o) ==> #[trigger] final(self).target(o) == old(self).target(o),
            joins_neighbours(*old(self), *final(self), i, k),
    {
        let ghost n0 = *self;
        let a = self.follow(Port { agent: i, role: Role::Left });
        let b = self.follow(Port { agent: k, role: Role::Left });
        self.connect_in(a, b, Ghost(n0), Ghost(i), Ghost(k));
        let ghost n1 = *self;
        let c = self.follow(Port { agent: i, role: Role::Right });
        let d = self.follow(Port { agent: k, role: Role::Right });
        self.connect_in(c, d, Ghost(n0), Ghost(i), Ghost(k));
        let ghost n2 = *self;
        self.free(i);
        self.free(k);
        proof {
            let ir = Port { agent: i, role: Role::Right };
            let kr = Port { agent: k, role: Role::Right };
            let c0 = n0.target(ir);
            let d0 = n0.target(kr);
            if a.agent != i && a.agent != k && b.agent != i && b.agent != k && c0.agent != i
                && c0.agent != k && d0.agent != i && d0.agent != k && a != c0 && a != d0 && b != c0
                && b != d0 {
                assert(n0.valid(ir) && n0.valid(kr));
                assert(ir != a && ir != b && kr != a && kr != b);
                assert(c == c0 && d == d0);
                assert(n2.target(a) == n1.target(a));
                assert(n2.target(b) == n1.target(b));
                assert(self.target(a) == n2.target(a));
                assert(self.target(b) == n2.target(b));
                assert(self.target(c) == n2.target(c));
                assert(self.target(d) == n2.target(d));
            }
            assert forall|o: Port| kept(n0, i, k, o) implies #[trigger] self.target(o) == n0.target(o) by {
                assert(n2.target(o) == n0.target(o));
            }
        }
    }

    /// Rewrites a redex of two agents with different tags: each is copied once
    /// for each auxiliary port of the other, the copies are wired to each
    /// other and to the old neighbours, and both original slots are freed.
    /// Every port that the rewrite does not touch keeps its edge.
    #[verifier::rlimit(100)]
    pub fn commute(&mut self, i: usize, k: usize) -> (r: (usize, usize, usize, usize))
        requires
            old(self).wf(),
            old(self).is_redex(i, k),
            old(self).agents()[i as int].tag != old(self).agents()[k as int].tag,
        ensures
            (final(self).model(), r) == m_commute(old(self).model(), i, k),
            final(self).wf(),
            final(self).agents().len() >= old(self).agents().len(),
            final(self).live_count() == old(self).live_count() + 2,
            forall|o: Port| kept(*old(self), i, k, o) ==> #[trigger] final(self).target(o) == old(self).target(o),
            final(self).freed().len() >= 2,
            final(self).freed()[final(self).freed().len() - 2] == i,
            final(self).freed().last() == k,
            commute_clear(*old(self), i, k) ==> commuted(*old(self), *final(self), i, k, r.0, r.1, r.2, r.3),
    {
        let ti = self.agents[i].tag;
        let tk = self.agents[k].tag;
        let ghost n0 = *self;
        let (a1, a1l, a1r) = self.add_in(ti, Ghost(n0), Ghost(i), Ghost(k));
        let ghost m1 = *self;
        let (a2, a2l, a2r) = self.add_in(ti, Ghost(n0), Ghost(i), Ghost(k));
        let ghost m2 = *self;
        let (b1, b1l, b1r) = self.add_in(tk, Ghost(n0), Ghost(i), Ghost(k));
        let ghost m3 = *self;
        let (b2, b2l, b2r) = self.add_in(tk, Ghost(n0), Ghost(i), Ghost(k));
        let ghost n1 = *self;
        proof {
            if commute_clear(n0, i, k) {
                lemma_fresh_slot(n0, m1, a1.agent);
                lemma_fresh_slot(m1, m2, a2.agent);
                lemma_fresh_slot(m2, m3, b1.agent);
                lemma_fresh_slot(m3, n1, b2.agent);
                assert(!m1.freed().contains(a1.agent));
                assert(a2.agent != a1.agent);
                assert(!m2.freed().contains(a1.agent));
                assert(b1.agent != a1.agent && b1.agent != a2.agent);
                assert(!m3.freed().contains(a1.agent) && !m3.freed().contains(a2.agent));
                assert(b2.agent != a1.agent && b2.agent != a2.agent && b2.agent != b1.agent);
                assert(n1.agents()[i as int] == n0.agents()[i as int]);
                assert(n1.agents()[k as int] == n0.agents()[k as int]);
                assert(n1.agents()[a1.agent as int] == m1.agents()[a1.agent as int]);
                assert(n1.agents()[a2.agent as int] == m2.agents()[a2.agent as int]);
                assert(n1.agents()[b1.agent as int] == m3.agents()[b1.agent as int]);
            }
        }
        assert(self.live_count() == n0.live_count() + 4);
        self.connect_in(a1l, b1l, Ghost(n0), Ghost(i), Ghost(k));
        self.connect_in(a1r, b2l, Ghost(n0), Ghost(i), Ghost(k));
        self.connect_in(a2l, b1r, Ghost(n0), Ghost(i), Ghost(k));
        self.connect_in(a2r, b2r, Ghost(n0), Ghost(i), Ghost(k));
        let ghost c4 = *self;
        let x = self.follow(Port { agent: i, role: Role::Left });
        self.connect_in(x, b1, Ghost(n0), Ghost(i), Ghost(k));
        let ghost c5 = *self;
        let x2 = self.follow(Port { agent: i, role: Role::Right });
        self.connect_in(x2, b2, Ghost(n0), Ghost(i), Ghost(k));
        let ghost c6 = *self;
        let y = self.follow(Port { agent: k, role: Role::Left });
        self.connect_in(y, a1, Ghost(n0), Ghost(i), Ghost(k));
        let ghost c7 = *self;
        let y2 = self.follow(Port { agent: k, role: Role::Right });
        self.connect_in(y2, a2, Ghost(n0), Ghost(i), Ghost(k));
        assert(self.live_count() == n1.live_count());
        let ghost n2 = *self;
        self.free(i);
        self.free(k);
        proof {
            assert forall|o: Port| kept(n0, i, k, o) implies #[trigger] self.target(o) == n0.target(o) by {
                assert(n2.target(o) == n0.target(o));
            }
            if commute_clear(n0, i, k) {
                let e1 = n0.target(lp(i));
                let e2 = n0.target(rp(i));
                let e3 = n0.target(lp(k));
                let e4 = n0.target(rp(k));
                assert(n0.valid(e1) && n0.valid(e2) && n0.valid(e3) && n0.valid(e4));
                assert(e1.agent != a1.agent && e1.agent != a2.agent && e1.agent != b1.agent && e1.agent != b2.agent);
                assert(e2.agent != a1.agent && e2.agent != a2.agent && e2.agent != b1.agent && e2.agent != b2.agent);
                assert(e3.agent != a1.agent && e3.agent != a2.agent && e3.agent != b1.agent && e3.agent != b2.agent);
                assert(e4.agent != a1.agent && e4.agent != a2.agent && e4.agent != b1.agent && e4.agent != b2.agent);
                assert(n1.target(lp(i)) == e1 && n1.target(rp(i)) == e2);
                assert(n1.target(lp(k)) == e3 && n1.target(rp(k)) == e4);
                assert(x == e1);
                assert(x2 == e2);
                assert(y == e3);
                assert(y2 == e4);
                assert(linked(c4, a1l, b1l) && linked(c4, a1r, b2l) && linked(c4, a2l, b1r) && linked(c4, a2r, b2r));
                assert(linked(c5, a1l, b1l) && linked(c5, a1r, b2l) && linked(c5, a2l, b1r) && linked(c5, a2r, b2r));
                assert(linked(c6, a1l, b1l) && linked(c6, a1r, b2l) && linked(c6, a2l, b1r) && linked(c6, a2r, b2r));
                assert(linked(c6, e1, b1));
                assert(linked(c7, a1l, b1l) && linked(c7, a1r, b2l) && linked(c7, a2l, b1r) && linked(c7, a2r, b2r));
                assert(linked(c7, e1, b1) && linked(c7, e2, b2));
                assert(linked(n2, a1l, b1l) && linked(n2, a1r, b2l) && linked(n2, a2l, b1r) && linked(n2, a2r, b2r));
                assert(linked(n2, e1, b1) && linked(n2, e2, b2) && linked(n2, e3, a1) && linked(n2, e4, a2));
                assert(self.agents() == n2.agents() && self.root() == n2.root());
            }
        }
        (a1.agent, a2.agent, b1.agent, b2.agent)
    }

    fn add_in(&mut self, tag: AgentType, Ghost(n0): Ghost<Net>, Ghost(i): Ghost<usize>, Ghost(k): Ghost<usize>) -> (r: (Port, Port, Port))
        requires
            rewrite_ok(n0, i, k, *old(self)),
        ensures
            (final(self).model(), r.0.agent) == m_add(old(self).model(), tag),
            rewrite_ok(n0, i, k, *final(self)),
            final(self).live_count() == old(self).live_count() + 1,
            final(self).valid(r.0) && final(self).valid(r.1) && final(self).valid(r.2),
            touched(n0, i, k, r.0) && touched(n0, i, k, r.1) && touched(n0, i, k, r.2),
            final(self).active() == old(self).active(),
            final(self).agents().len() >= old(self).agents().len(),
            r.0 == (Port { agent: r.0.agent, role: Role::Principal }),
            r.1 == (Port { agent: r.0.agent, role: Role::Left }),
            r.2 == (Port { agent: r.0.agent, role: Role::Right }),
            r.0.agent < final(self).agents().len(),
            r.0.agent != ROOT,
            final(self).agents()[r.0.agent as int] == Agent::fresh(tag, r.0.agent),
            forall|j: int|
                0 <= j < old(self).agents().len() && j != r.0.agent ==> final(self).agents()[j]
                    == old(self).agents()[j],
            final(self).root() == old(self).root(),
            old(self).freed().len() > 0 ==> {
                &&& r.0.agent == old(self).freed().last()
                &&& final(self).agents().len() == old(self).agents().len()
                &&& final(self).freed() == old(self).freed().drop_last()
            },
            old(self).freed().len() == 0 ==> {
                &&& r.0.agent == old(self).agents().len()
                &&& final(self).agents().len() == old(self).agents().len() + 1
                &&& final(self).freed() == old(self).freed()
            },
    {
        let ghost before = *self;
        let r = self.add(tag);
        proof {
            let s = r.0.agent;
            if before.freed().len() > 0 {
                assert(before.freed().contains(before.freed().last()));
                assert(n0.freed().contains(s));
                assert forall|x: usize| self.freed().contains(x) implies n0.freed().contains(x) by {
                    let j = choose|j: int| 0 <= j < self.freed().len() && self.freed()[j] == x;
                    assert(before.freed()[j] == x);
                    assert(before.freed().contains(x));
                }
            } else {
                assert(s >= n0.agents().len() && s != ROOT);
            }
            assert(touched(n0, i, k, r.0));
            assert forall|o: Port| kept(n0, i, k, o) implies #[trigger] self.target(o) == n0.target(o) by {
                assert(before.target(o) == n0.target(o));
                if o.agent != ROOT {
                    assert(o.agent != s);
                    assert(self.agents()[o.agent as int] == before.agents()[o.agent as int]);
                }
            }
            let il = Port { agent: i, role: Role::Left };
            let ir = Port { agent: i, role: Role::Right };
            let kl = Port { agent: k, role: Role::Left };
            let kr = Port { agent: k, role: Role::Right };
            if i != s {
                assert(self.agents()[i as int] == before.agents()[i as int]);
            }
            if k != s {
                assert(self.agents()[k as int] == before.agents()[k as int]);
            }
            assert(touched(n0, i, k, self.target(il)));
            assert(touched(n0, i, k, self.target(ir)));
            assert(touched(n0, i, k, self.target(kl)));
            assert(touched(n0, i, k, self.target(kr)));
        }
        r
    }

    fn connect_in(&mut self, a: Port, b: Port, Ghost(n0): Ghost<Net>, Ghost(i): Ghost<usize>, Ghost(k): Ghost<usize>)
        requires
            rewrite_ok(n0, i, k, *old(self)),
            old(self).valid(a),
            old(self).valid(b),
            touched(n0, i, k, a),
            touched(n0, i, k, b),
        ensures
            final(self).model() == m_connect(old(self).model(), a, b),
            rewrite_ok(n0, i, k, *final(self)),
            final(self).agents().len() == old(self).agents().len(),
            final(self).freed() == old(self).freed(),
            final(self).target(a) == b,
            final(self).target(b) == a,
            forall|o: Port|
                old(self).valid(o) && o != a && o != b ==> #[trigger] final(self).target(o) == old(
                    self,
                ).target(o),
            forall|j: int|
                0 <= j < old(self).agents().len() ==> (#[trigger] final(self).agents()[j]).tag
                    == old(self).agents()[j].tag,
    {
        let ghost before = *self;
        self.connect(a, b);
        proof {
            assert forall|o: Port| kept(n0, i, k, o) implies #[trigger] self.target(o) == n0.target(o) by {
                assert(before.target(o) == n0.target(o));
                assert(!touched(n0, i, k, o));
                assert(before.valid(o));
            }
            let il = Port { agent: i, role: Role::Left };
            let ir = Port { agent: i, role: Role::Right };
            let kl = Port { agent: k, role: Role::Left };
            let kr = Port { agent: k, role: Role::Right };
            assert(before.valid(il) && before.valid(ir) && before.valid(kl) && before.valid(kr));
            assert(touched(n0, i, k, self.target(il)));
            assert(touched(n0, i, k, self.target(ir)));
            assert(touched(n0, i, k, self.target(kl)));
            assert(touched(n0, i, k, self.target(kr)));
        }
    }

    /// Takes the next queued slot and rewrites the redex it belongs to, if it
    /// still belongs to one.
    pub fn step(&mut self) -> (r: Step)
        requires
            old(self).wf(),
        ensures
            (final(self).model(), r) == m_step(old(self).model()),
            final(self).wf(),
            final(self).agents().len() >= old(self).agents().len(),
            (r == Step::Done) == (old(self).active().len() == 0),
            r == Step::Done ==> *final(self) == *old(self),
            r == Step::Skipped ==> {
                &&& final(self).agents() == old(self).agents()
                &&& final(self).freed() == old(self).freed()
                &&& final(self).root() == old(self).root()
                &&& final(self).active() == old(self).active().drop_last()
            },
            old(self).active().len() > 0 ==> {
                let i = old(self).active().last();
                let k = old(self).agents()[i as int].principal.agent;
                &&& (r == Step::Rewrote) == old(self).is_redex(i, k)
                &&& r == Step::Rewrote && old(self).agents()[i as int].tag == old(self).agents()[k as int].tag ==> {
                    &&& final(self).freed() == old(self).freed().push(i).push(k)
                    &&& final(self).live_count() == old(self).live_count() - 2
                    &&& joins_neighbours(*old(self), *final(self), i, k)
                }
                &&& r == Step::Rewrote && old(self).agents()[i as int].tag != old(self).agents()[k as int].tag
                    ==> final(self).live_count() == old(self).live_count() + 2
                &&& r == Step::Rewrote && old(self).agents()[i as int].tag != old(self).agents()[k as int].tag
                    && commute_clear(*old(self), i, k) ==> exists|a1: usize, a2: usize, b1: usize, b2: usize|
                    commuted(*old(self), *final(self), i, k, a1, a2, b1, b2)
                &&& r == Step::Rewrote ==> forall|o: Port|
                    kept(*old(self), i, k, o) ==> #[trigger] final(self).target(o) == old(self).target(o)
            },
    {
        if self.active.len() == 0 {
            return Step::Done;
        }
        let i = self.active.pop().unwrap();
        proof {
            assert(self.active() =~= old(self).active().drop_last());
            assert forall|k: int| 0 <= k < self.active().len() implies #[trigger] self.active()[k]
                < self.agents().len() by {
                assert(self.active()[k] == old(self).active()[k]);
            }
            assert(i == old(self).active()[old(self).active().len() - 1]);
            assert forall|k: int| 0 <= k < self.freed().len() implies #[trigger] self.freed()[k]
                < self.agents().len() by {
                assert(self.freed()[k] == old(self).freed()[k]);
            }
            assert(self.agents() == old(self).agents());
            assert(self.root() == old(self).root());
            assert(self.valid(self.root()));
            assert forall|j: int, r: Role|
                0 <= j < self.agents().len() implies self.valid(
                #[trigger] self.agents()[j].port(r),
            ) by {
                assert(old(self).valid(old(self).agents()[j].port(r)));
            }
        }
        let p = self.agents[i].principal;
        if p.agent == ROOT || p.role != Role::Principal || p.agent == i {
            return Step::Skipped;
        }
        let k = p.agent;
        proof {
            assert(self.valid(self.agents()[i as int].port(Role::Principal)));
        }
        let q = self.agents[k].principal;
        if q.agent != i || q.role != Role::Principal {
            return Step::Skipped;
        }
        if self.agents[i].tag == self.agents[k].tag {
            self.annihilate(i, k);
        } else {
            let ghost mid = *self;
            let slots = self.commute(i, k);
            proof {
                assert(mid.agents() == old(self).agents() && mid.root() == old(self).root());
                assert(mid.freed() == old(self).freed());
                if commute_clear(*old(self), i, k) {
                    assert(commute_clear(mid, i, k));
                    assert(commuted(*old(self), *self, i, k, slots.0, slots.1, slots.2, slots.3));
                }
            }
        }
        Step::Rewrote
    }

    /// Reduces the net until no redex is queued, taking at most `fuel` queued
    /// slots, and returns how many rewrites were made; `None` when the fuel
    /// ran out first.
    #[verifier::rlimit(60)]
    pub fn reduce_all(&mut self, fuel: usize) -> (r: Option<usize>)
        requires
            old(self).wf(),
        ensures
            final(self).wf(),
            final(self).model() == m_reduce(old(self).model(), fuel as nat).0,
            r is None ==> m_reduce(old(self).model(), fuel as nat).1 is None,
            r matches Some(n) ==> m_reduce(old(self).model(), fuel as nat).1 == Some(n as nat),
            (r is Some) == (final(self).active().len() == 0),
            r matches Some(n) ==> n <= fuel,
    {
        let mut rewrites: usize = 0;
        let mut n: usize = 0;
        while n < fuel
            invariant
                self.wf(),
                rewrites <= n <= fuel,
                m_reduce(old(self).model(), fuel as nat) == counted(
                    m_reduce(self.model(), (fuel - n) as nat),
                    rewrites as nat,
                ),
            decreases fuel - n,
        {
            let ghost before = self.model();
            let st = self.step();
            proof {
                assert(m_reduce(before, (fuel - n) as nat) == match st {
                    Step::Done => (before, Some(0nat)),
                    Step::Skipped => m_reduce(self.model(), (fuel - n - 1) as nat),
                    Step::Rewrote => counted(m_reduce(self.model(), (fuel - n - 1) as nat), 1),
                });
            }
            match st {
                Step::Done => {
                    return Some(rewrites);
                },
                Step::Rewrote => {
                    rewrites = rewrites + 1;
                },
                Step::Skipped => {},
            }
            n = n + 1;
        }
        if self.active.len() == 0 {
            Some(rewrites)
        } else {
            None
        }
    }

    /// The number of slots in the arena, free ones included.
    pub fn arena_len(&self) -> (r: usize)
        ensures
            r == self.agents().len(),
    {
        self.agents.len()
    }

    /// The number of free slots.
    pub fn freed_len(&self) -> (r: usize)
        ensures
            r == self.freed().len(),
    {
        self.freed.len()
    }

    /// The number of queued slots.
    pub fn active_len(&self) -> (r: usize)
        ensures
            r == self.active().len(),
    {
        self.active.len()
    }

    /// The agent in slot `i`.
    pub fn agent(&self, i: usize) -> (r: Agent)
        requires
            i < self.agents().len(),
        ensures
            r == self.agents()[i as int],
    {
        self.agents[i]
    }

    /// The port connected to the root: the value of the whole net.
    pub fn entry(&self) -> (r: Port)
        ensures
            r == self.root(),
    {
        self.root
    }

    /// Takes the net apart: its arena, free slots, queued slots and root.
    pub fn into_parts(self) -> (r: (Vec<Agent>, Vec<usize>, Vec<usize>, Port))
        ensures
            r.0@ == self.agents(),
            r.1@ == self.freed(),
            r.2@ == self.active(),
            r.3 == self.root(),
    {
        (self.agents, self.freed, self.active, self.root)
    }

    /// Puts a net together from its parts, when they fit together.
    pub fn from_parts(agents: Vec<Agent>, freed: Vec<usize>, active: Vec<usize>, root: Port) -> (r:
        Option<Net>)
        ensures
            r is Some == parts_ok(agents@, freed@, active@, root),
            r matches Some(net) ==> {
                &&& net.wf()
                &&& net.agents() == agents@
                &&& net.freed() == freed@
                &&& net.active() == active@
                &&& net.root() == root
            },
    {
        let n = agents.len();
        if !check_port(root, n) || !all_below(&freed, n) || !all_below(&active, n) {
            return None;
        }
        if !no_repeats(&freed, n) {
            return None;
        }
        let mut i: usize = 0;
        while i < n
            invariant
                n == agents@.len(),
                i <= n,
                forall|j: int, r: Role| 0 <= j < i ==> port_ok(#[trigger] agents@[j].port(r), n as nat),
            decreases n - i,
        {
            let a = agents[i];
            if !check_port(a.principal, n) {
                assert(!port_ok(agents@[i as int].port(Role::Principal), n as nat));
                return None;
            }
            if !check_port(a.left, n) {
                assert(!port_ok(agents@[i as int].port(Role::Left), n as nat));
                return None;
            }
            if !check_port(a.right, n) {
                assert(!port_ok(agents@[i as int].port(Role::Right), n as nat));
                return None;
            }
            assert forall|j: int, r: Role| 0 <= j < i + 1 implies port_ok(#[trigger] agents@[j].port(r), n as nat) by {
                if j == i {
                    match r {
                        Role::Principal => {},
                        Role::Left => {},
                        Role::Right => {},
                    }
                }
            }
            i = i + 1;
        }
        let net = Net { agents, freed, active, root };
        assert(net.valid(net.root()));
        assert forall|j: int, r: Role| 0 <= j < net.agents().len() implies net.valid(#[trigger] net.agents()[j].port(r)) by {
            assert(port_ok(agents@[j].port(r), n as nat));
        }
        Some(net)
    }
}

} // verus!
