use vstd::prelude::*;

verus! {

/// The number of workers in one workgroup of a dispatch.
pub const BLOCK_SIZE: u32 = 64;

/// The counters shared between the host and the device during accelerated
/// reduction.
#[derive(Debug, Clone, Copy, PartialEq, Eq, Structural)]
pub struct State {
    pub active_pairs: u32,
    pub active_pairs_done: u32,
    pub freed_agents: u32,
    pub visits_needed: u32,
    pub visits_done: u32,
    pub rewrites: u32,
}

impl State {
    /// The counters for a net staged with `active_pairs` queued redexes and
    /// `freed_agents` free slots.
    pub fn staged(active_pairs: u32, freed_agents: u32) -> (r: State)
        ensures
            r == (State {
                active_pairs,
                active_pairs_done: 0,
                freed_agents,
                visits_needed: 0,
                visits_done: 0,
                rewrites: 0,
            }),
    {
        State {
            active_pairs,
            active_pairs_done: 0,
            freed_agents,
            visits_needed: 0,
            visits_done: 0,
            rewrites: 0,
        }
    }
}

/// The number of workgroups that gives each of `count` items a worker: the
/// quotient by `BLOCK_SIZE`, rounded up.
pub fn workgroups(count: u32) -> (r: u32)
    ensures
        r == (count + BLOCK_SIZE - 1) / (BLOCK_SIZE as int),
        r * BLOCK_SIZE >= count,
        r == 0 || (r - 1) * BLOCK_SIZE < count,
{
    let q = count / BLOCK_SIZE;
    if count % BLOCK_SIZE == 0 {
        q
    } else {
        q + 1
    }
}

/// What the host does after a redex pass and a visit pass have completed.
#[derive(Debug, Clone, Copy, PartialEq, Eq, Structural)]
pub enum Decision {
    /// Redexes remain: dispatch both passes again.
    Continue,
    /// No redex remains: reduction is over, with this many rewrites.
    Finished(u32),
}

/// Reads the counters after both passes of one round. When no redex remains
/// the accumulated rewrite count is handed out and reset; otherwise nothing
/// changes.
pub fn after_round(state: &mut State) -> (r: Decision)
    ensures
        old(state).active_pairs == 0 ==> r == Decision::Finished(old(state).rewrites),
        old(state).active_pairs == 0 ==> *final(state) == (State { rewrites: 0, ..*old(state) }),
        old(state).active_pairs != 0 ==> r == Decision::Continue && *final(state) == *old(state),
{
    if state.active_pairs == 0 {
        let rewrites = state.rewrites;
        state.rewrites = 0;
        Decision::Finished(rewrites)
    } else {
        Decision::Continue
    }
}

} // verus!
