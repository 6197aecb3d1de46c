//! The agents in the office and the desks they hold: who is there, what each
//! is doing, and which desks are taken.
use vstd::prelude::*;
use crate::agent::{effects_view, next, transition, AgentEvent, AgentState, EffectView};
use crate::grid::{
    in_bounds, office_desk_positions, office_tile, overflow_ring_of, Grid, GRID_HEIGHT, GRID_WIDTH,
};
use crate::office::{
    advance_walk, claim_desk, effect_done, first_free, handle_side_effect, is_new_walker,
    law_first_free_is_lowest, lemma_path_in_bounds, release_desk, spawn_walker, unchanged,
    walk_advanced, walker_fits, WalkStep, Walker, NUM_DESKS, WALK_SPEED_TICKS,
};
use crate::path_order::is_first_shortest_path;
use crate::pixels::Rgba;
use crate::text::str_eq;

verus! {

/// An agent: the transcript it follows (by key), where it is and what it is
/// doing, and its colours.
pub struct Agent {
    pub key: String,
    pub walker: Walker,
    pub body: Rgba,
    pub head: Rgba,
}

/// `taken[d]` holds exactly when an agent has desk `d`: every desk held is one
/// of the office's and marked taken, every desk marked taken is held, and no
/// two agents hold the same desk.
pub open spec fn desks_match(agents: Seq<Agent>, taken: Seq<bool>) -> bool {
    &&& taken.len() == NUM_DESKS
    &&& forall|j: int|
        0 <= j < agents.len() && (#[trigger] agents[j]).walker.desk is Some ==> agents[j].walker.desk->0
            < NUM_DESKS && taken[agents[j].walker.desk->0 as int]
    &&& forall|d: int|
        0 <= d < NUM_DESKS && #[trigger] taken[d] ==> exists|j: int|
            0 <= j < agents.len() && (#[trigger] agents[j]).walker.desk == Some(d as usize)
    &&& forall|j: int, k: int|
        0 <= j < k < agents.len() && (#[trigger] agents[j]).walker.desk is Some
            ==> agents[j].walker.desk != (#[trigger] agents[k]).walker.desk
}

/// A walker that the office can move: it fits the office, and its tick
/// counter and frame are below 3.
pub open spec fn walker_ok(w: Walker, grid: Grid) -> bool {
    &&& walker_fits(w, grid)
    &&& w.frame_counter < WALK_SPEED_TICKS
    &&& w.frame < 3
}

/// What carrying out effects `es` in order did to a walker.
pub open spec fn effects_applied(
    before: Walker,
    after: Walker,
    es: Seq<EffectView>,
    grid: Grid,
    tick_count: u64,
) -> bool
    decreases es.len(),
{
    if es.len() == 0 {
        unchanged(before, after)
    } else {
        exists|mid: Walker|
            effects_applied(before, mid, es.drop_last(), grid, tick_count) && #[trigger] effect_done(
                mid,
                after,
                es.last(),
                grid,
                tick_count,
            )
    }
}

/// The agents that have not despawned, in order.
pub open spec fn live_agents(s: Seq<Agent>) -> Seq<Agent>
    decreases s.len(),
{
    if s.len() == 0 {
        seq![]
    } else if s[0].walker.state == AgentState::Despawn {
        live_agents(s.drop_first())
    } else {
        seq![s[0]] + live_agents(s.drop_first())
    }
}

/// The keys of the agents that have despawned, in order.
pub open spec fn gone_keys(s: Seq<Agent>) -> Seq<Seq<char>>
    decreases s.len(),
{
    if s.len() == 0 {
        seq![]
    } else if s[0].walker.state == AgentState::Despawn {
        seq![s[0].key@] + gone_keys(s.drop_first())
    } else {
        gone_keys(s.drop_first())
    }
}

/// The office with its agents and the table of taken desks.
pub struct Office {
    grid: Grid,
    agents: Vec<Agent>,
    desk_taken: [bool; NUM_DESKS],
}

impl Office {
    pub closed spec fn spec_grid(&self) -> Grid {
        self.grid
    }

    pub closed spec fn spec_agents(&self) -> Seq<Agent> {
        self.agents@
    }

    pub closed spec fn spec_desks(&self) -> Seq<bool> {
        self.desk_taken@
    }

    /// The office has its six desks, the desks match the agents, and every
    /// agent's walker can be moved.
    pub closed spec fn wf(&self) -> bool {
        &&& self.grid.desk_positions@.len() == NUM_DESKS
        &&& forall|i: int|
            0 <= i < NUM_DESKS ==> in_bounds(#[trigger] self.grid.desk_positions@[i])
        &&& desks_match(self.agents@, self.desk_taken@)
        &&& forall|j: int|
            0 <= j < self.agents@.len() ==> walker_ok(#[trigger] self.agents@[j].walker, self.grid)
    }

    /// The default office, empty, with every desk free.
    pub fn new() -> (o: Office)
        ensures
            o.wf(),
            o.spec_agents().len() == 0,
            o.spec_desks() == seq![false, false, false, false, false, false],
            forall|y: int, x: int|
                0 <= y < GRID_HEIGHT && 0 <= x < GRID_WIDTH ==> #[trigger] o.spec_grid().tiles[y][x]
                    == office_tile(x, y),
            o.spec_grid().desk_positions@ == office_desk_positions(),
            o.spec_grid().overflow_ring@ == overflow_ring_of(o.spec_grid().tiles),
    {
        let o = Office {
            grid: Grid::default_office(),
            agents: Vec::new(),
            desk_taken: [false; NUM_DESKS],
        };
        assert(o.desk_taken@ =~= seq![false, false, false, false, false, false]);
        o
    }

    /// The office's floor plan.
    pub fn grid(&self) -> (g: &Grid)
        ensures
            *g == self.spec_grid(),
    {
        &self.grid
    }

    /// The agents, in the order they arrived.
    pub fn agents(&self) -> (a: &Vec<Agent>)
        ensures
            a@ == self.spec_agents(),
    {
        &self.agents
    }

    /// The table of taken desks.
    pub fn desks(&self) -> (d: [bool; NUM_DESKS])
        ensures
            d@ == self.spec_desks(),
    {
        self.desk_taken
    }

    /// Whether an agent follows the transcript `key`.
    pub fn has_agent(&self, key: &str) -> (r: bool)
        ensures
            r == exists|j: int| 0 <= j < self.spec_agents().len() && (#[trigger] self.spec_agents()[j]).key@ == key@,
    {
        let mut j: usize = 0;
        while j < self.agents.len()
            invariant
                j <= self.agents@.len(),
                forall|k: int| 0 <= k < j ==> (#[trigger] self.agents@[k]).key@ != key@,
            decreases self.agents@.len() - j,
        {
            if str_eq(self.agents[j].key.as_str(), key) {
                assert(self.agents@[j as int].key@ == key@);
                return true;
            }
            j = j + 1;
        }
        false
    }

    /// A new agent following transcript `key` arrives: it takes the first free
    /// desk (if any) and walks from the door towards its seat, or towards the
    /// ring tile of this tick when every desk is taken.
    pub fn add_agent(&mut self, key: String, body: Rgba, head: Rgba, tick_count: u64)
        requires
            old(self).wf(),
        ensures
            final(self).wf(),
            final(self).spec_grid() == old(self).spec_grid(),
            final(self).spec_desks() == match first_free(old(self).spec_desks()) {
                Some(i) => old(self).spec_desks().update(i as int, true),
                None => old(self).spec_desks(),
            },
            final(self).spec_agents().len() == old(self).spec_agents().len() + 1,
            final(self).spec_agents().drop_last() == old(self).spec_agents(),
            final(self).spec_agents().last().key == key,
            final(self).spec_agents().last().body == body,
            final(self).spec_agents().last().head == head,
            is_new_walker(
                final(self).spec_agents().last().walker,
                old(self).spec_grid(),
                first_free(old(self).spec_desks()),
                tick_count,
            ),
            desks_match(final(self).spec_agents(), final(self).spec_desks()),
    {
        let ghost old_taken = self.desk_taken@;
        let ghost old_agents = self.agents@;
        proof {
            law_first_free_is_lowest(old_taken);
        }
        let desk = claim_desk(&mut self.desk_taken);
        let walker = spawn_walker(&self.grid, desk, tick_count);
        proof {
            if walker.path@.len() > 0 {
                lemma_path_in_bounds(
                    self.grid,
                    walker.pos,
                    crate::office::arrival_target(self.grid, desk, tick_count),
                    walker.path@,
                );
            }
            assert(in_bounds(walker.pos));
            assert(walker_ok(walker, self.grid));
        }
        self.agents.push(Agent { key, walker, body, head });
        proof {
            let agents = self.agents@;
            let taken = self.desk_taken@;
            let n = old_agents.len() as int;
            assert(agents.drop_last() =~= old_agents);
            assert forall|j: int| 0 <= j < n implies #[trigger] agents[j] == old_agents[j] by {}
            assert forall|j: int|
                0 <= j < agents.len() && (#[trigger] agents[j]).walker.desk is Some implies agents[j].walker.desk->0
                < NUM_DESKS && taken[agents[j].walker.desk->0 as int] by {
                if j < n {
                    assert(old_agents[j] == agents[j]);
                }
            }
            assert forall|d: int| 0 <= d < NUM_DESKS && #[trigger] taken[d] implies exists|j: int|
                0 <= j < agents.len() && (#[trigger] agents[j]).walker.desk == Some(d as usize) by {
                if desk == Some(d as usize) {
                    assert(agents[n].walker.desk == Some(d as usize));
                } else {
                    assert(old_taken[d]);
                    let j = choose|j: int|
                        0 <= j < old_agents.len() && (#[trigger] old_agents[j]).walker.desk == Some(
                            d as usize,
                        );
                    assert(agents[j] == old_agents[j]);
                }
            }
            assert forall|j: int, k: int|
                0 <= j < k < agents.len() && (#[trigger] agents[j]).walker.desk is Some implies agents[j].walker.desk
                != (#[trigger] agents[k]).walker.desk by {
                assert(agents[j] == old_agents[j]);
                if k < n {
                    assert(agents[k] == old_agents[k]);
                } else {
                    assert(old_taken[agents[j].walker.desk->0 as int]);
                }
            }
            assert forall|j: int| 0 <= j < agents.len() implies walker_ok(
                #[trigger] agents[j].walker,
                self.grid,
            ) by {
                if j < n {
                    assert(agents[j] == old_agents[j]);
                }
            }
        }
    }

    /// Agent `i` takes an event: its state becomes the state machine's next
    /// state, then the effects are carried out in order on its walker. Returns
    /// whether the effects ask for its idle timer to be reset.
    pub fn apply_event(&mut self, i: usize, event: AgentEvent, tick_count: u64) -> (reset_idle: bool)
        requires
            old(self).wf(),
            i < old(self).spec_agents().len(),
        ensures
            final(self).wf(),
            final(self).spec_grid() == old(self).spec_grid(),
            final(self).spec_desks() == old(self).spec_desks(),
            final(self).spec_agents().len() == old(self).spec_agents().len(),
            forall|j: int|
                0 <= j < old(self).spec_agents().len() && j != i
                    ==> #[trigger] final(self).spec_agents()[j] == old(self).spec_agents()[j],
            ({
                let b = old(self).spec_agents()[i as int];
                let a = final(self).spec_agents()[i as int];
                let step = next(b.walker.state, event@);
                &&& a.key == b.key && a.body == b.body && a.head == b.head
                &&& effects_applied(
                    (Walker { state: step.0, ..b.walker }),
                    a.walker,
                    step.1,
                    old(self).spec_grid(),
                    tick_count,
                )
                &&& reset_idle == step.1.contains(EffectView::ResetIdleTimer)
            }),
    {
        let ghost old_agents = self.agents@;
        let ghost ev = event@;
        let mut agent = self.agents.remove(i);
        assert(agent == old_agents[i as int]);
        let (state, effects) = transition(agent.walker.state, event);
        agent.walker.state = state;
        let ghost start = agent.walker;
        let ghost es = effects_view(effects@);
        let mut reset_idle = false;
        let mut k: usize = 0;
        proof {
            assert(es.take(0) =~= Seq::<EffectView>::empty());
        }
        while k < effects.len()
            invariant
                k <= effects@.len(),
                agent.key == old_agents[i as int].key,
                agent.body == old_agents[i as int].body,
                agent.head == old_agents[i as int].head,
                es == effects_view(effects@),
                es.len() == effects@.len(),
                walker_ok(agent.walker, self.grid),
                agent.walker.desk == start.desk,
                effects_applied(start, agent.walker, es.take(k as int), self.grid, tick_count),
                reset_idle == es.take(k as int).contains(EffectView::ResetIdleTimer),
                self.grid.desk_positions@.len() == NUM_DESKS,
                forall|d: int|
                    0 <= d < NUM_DESKS ==> in_bounds(#[trigger] self.grid.desk_positions@[d]),
            decreases effects@.len() - k,
        {
            let ghost mid = agent.walker;
            let r = handle_side_effect(&mut agent.walker, &effects[k], &self.grid, tick_count);
            proof {
                assert(es[k as int] == effects@[k as int]@);
                assert(es.take(k + 1).drop_last() =~= es.take(k as int));
                assert(es.take(k + 1).last() == es[k as int]);
                assert(effect_done(mid, agent.walker, es.take(k + 1).last(), self.grid, tick_count));
                assert(es.take(k + 1) =~= es.take(k as int).push(es[k as int]));
                assert(r == (es[k as int] == EffectView::ResetIdleTimer));
            }
            reset_idle = reset_idle || r;
            k = k + 1;
        }
        proof {
            assert(es.take(es.len() as int) =~= es);
        }
        self.agents.insert(i, agent);
        proof {
            let agents = self.agents@;
            assert(agents =~= old_agents.update(i as int, agent));
            lemma_same_desks_match(old_agents, agents, self.desk_taken@);
            assert forall|j: int| 0 <= j < agents.len() implies walker_ok(
                #[trigger] agents[j].walker,
                self.grid,
            ) by {
                if j != i {
                    assert(agents[j] == old_agents[j]);
                }
            }
        }
        reset_idle
    }

    /// One tick of walking for agent `i`; see `advance_walk`.
    pub fn advance(&mut self, i: usize) -> (step: WalkStep)
        requires
            old(self).wf(),
            i < old(self).spec_agents().len(),
        ensures
            final(self).wf(),
            final(self).spec_grid() == old(self).spec_grid(),
            final(self).spec_desks() == old(self).spec_desks(),
            final(self).spec_agents().len() == old(self).spec_agents().len(),
            forall|j: int|
                0 <= j < old(self).spec_agents().len() && j != i
                    ==> #[trigger] final(self).spec_agents()[j] == old(self).spec_agents()[j],
            ({
                let b = old(self).spec_agents()[i as int];
                let a = final(self).spec_agents()[i as int];
                &&& a.key == b.key && a.body == b.body && a.head == b.head
                &&& walk_advanced(b.walker, a.walker, step)
            }),
    {
        let ghost old_agents = self.agents@;
        let mut agent = self.agents.remove(i);
        assert(agent == old_agents[i as int]);
        let step = advance_walk(&mut agent.walker);
        self.agents.insert(i, agent);
        proof {
            let agents = self.agents@;
            assert(agents =~= old_agents.update(i as int, agent));
            lemma_same_desks_match(old_agents, agents, self.desk_taken@);
            assert forall|j: int| 0 <= j < agents.len() implies walker_ok(
                #[trigger] agents[j].walker,
                self.grid,
            ) by {
                if j != i {
                    assert(agents[j] == old_agents[j]);
                }
            }
        }
        step
    }
}

impl Office {
    /// Removes the agents that have despawned, freeing their desks, and
    /// returns their keys in order.
    pub fn remove_despawned(&mut self) -> (removed: Vec<String>)
        requires
            old(self).wf(),
        ensures
            final(self).wf(),
            final(self).spec_grid() == old(self).spec_grid(),
            final(self).spec_agents() == live_agents(old(self).spec_agents()),
            removed@.map_values(|k: String| k@) == gone_keys(old(self).spec_agents()),
            desks_match(final(self).spec_agents(), final(self).spec_desks()),
    {
        let ghost old_agents = self.agents@;
        let mut removed: Vec<String> = Vec::new();
        let mut i: usize = self.agents.len();
        proof {
            assert(old_agents.skip(i as int) =~= Seq::<Agent>::empty());
            assert(old_agents.take(i as int) + live_agents(old_agents.skip(i as int)) =~= old_agents);
            assert(removed@.map_values(|k: String| k@) =~= gone_keys(old_agents.skip(i as int)));
        }
        while i > 0
            invariant
                i <= old_agents.len(),
                self.agents@ == old_agents.take(i as int) + live_agents(old_agents.skip(i as int)),
                removed@.map_values(|k: String| k@) == gone_keys(old_agents.skip(i as int)),
                self.grid == old(self).grid,
                self.grid.desk_positions@.len() == NUM_DESKS,
                forall|d: int|
                    0 <= d < NUM_DESKS ==> in_bounds(#[trigger] self.grid.desk_positions@[d]),
                desks_match(self.agents@, self.desk_taken@),
                forall|j: int|
                    0 <= j < self.agents@.len() ==> walker_ok(#[trigger] self.agents@[j].walker, self.grid),
            decreases i,
        {
            let ghost before = self.agents@;
            let ghost before_removed = removed@;
            i = i - 1;
            let ghost a = old_agents[i as int];
            proof {
                assert(before[i as int] == a);
                assert(old_agents.skip(i as int).drop_first() =~= old_agents.skip(i + 1));
                assert(old_agents.skip(i as int)[0] == a);
            }
            if self.agents[i].walker.state == AgentState::Despawn {
                let gone = self.agents.remove(i);
                proof {
                    lemma_remove_keeps_match(before, self.desk_taken@, i as int);
                }
                release_desk(&mut self.desk_taken, gone.walker.desk);
                removed.insert(0, gone.key);
                proof {
                    assert(self.agents@ =~= old_agents.take(i as int) + live_agents(
                        old_agents.skip(i as int),
                    ));
                    assert(removed@.map_values(|k: String| k@) =~= gone_keys(
                        old_agents.skip(i as int),
                    ));
                    assert forall|j: int| 0 <= j < self.agents@.len() implies walker_ok(
                        #[trigger] self.agents@[j].walker,
                        self.grid,
                    ) by {
                        if j < i {
                            assert(self.agents@[j] == before[j]);
                        } else {
                            assert(self.agents@[j] == before[j + 1]);
                        }
                    }
                }
            } else {
                proof {
                    assert(self.agents@ =~= old_agents.take(i as int) + live_agents(
                        old_agents.skip(i as int),
                    ));
                    assert(removed@.map_values(|k: String| k@) =~= gone_keys(
                        old_agents.skip(i as int),
                    ));
                }
            }
        }
        proof {
            assert(old_agents.take(0) + live_agents(old_agents.skip(0)) =~= live_agents(old_agents));
            assert(old_agents.skip(0) =~= old_agents);
        }
        removed
    }
}

/// Removing agent `i` and freeing its desk keeps the desks matched.
proof fn lemma_remove_keeps_match(agents: Seq<Agent>, taken: Seq<bool>, i: int)
    requires
        desks_match(agents, taken),
        0 <= i < agents.len(),
    ensures
        desks_match(
            agents.remove(i),
            match agents[i].walker.desk {
                Some(d) => if d < NUM_DESKS {
                    taken.update(d as int, false)
                } else {
                    taken
                },
                None => taken,
            },
        ),
{
    let after = agents.remove(i);
    let t2 = match agents[i].walker.desk {
        Some(d) => if d < NUM_DESKS {
            taken.update(d as int, false)
        } else {
            taken
        },
        None => taken,
    };
    assert forall|j: int| 0 <= j < after.len() implies #[trigger] after[j] == agents[if j < i {
        j
    } else {
        j + 1
    }] by {}
    assert forall|j: int|
        0 <= j < after.len() && (#[trigger] after[j]).walker.desk is Some implies after[j].walker.desk->0
        < NUM_DESKS && t2[after[j].walker.desk->0 as int] by {
        let oj = if j < i {
            j
        } else {
            j + 1
        };
        assert(after[j] == agents[oj]);
        if agents[i].walker.desk is Some {
            if oj < i {
                assert(agents[oj].walker.desk != agents[i].walker.desk);
            } else {
                assert(agents[i].walker.desk != agents[oj].walker.desk);
            }
        }
    }
    assert forall|d: int| 0 <= d < NUM_DESKS && #[trigger] t2[d] implies exists|j: int|
        0 <= j < after.len() && (#[trigger] after[j]).walker.desk == Some(d as usize) by {
        assert(taken[d]);
        let j = choose|j: int| 0 <= j < agents.len() && (#[trigger] agents[j]).walker.desk == Some(d as usize);
        assert(j != i);
        if j < i {
            assert(after[j] == agents[j]);
        } else {
            assert(after[j - 1] == agents[j]);
        }
    }
    assert forall|j: int, k: int|
        0 <= j < k < after.len() && (#[trigger] after[j]).walker.desk is Some implies after[j].walker.desk
        != (#[trigger] after[k]).walker.desk by {
        let oj = if j < i {
            j
        } else {
            j + 1
        };
        let ok = if k < i {
            k
        } else {
            k + 1
        };
        assert(after[j] == agents[oj]);
        assert(after[k] == agents[ok]);
    }
}

/// Agents that hold the same desks, one by one, match the same desk table.
proof fn lemma_same_desks_match(before: Seq<Agent>, after: Seq<Agent>, taken: Seq<bool>)
    requires
        desks_match(before, taken),
        after.len() == before.len(),
        forall|j: int| 0 <= j < before.len() ==> (#[trigger] after[j]).walker.desk == before[j].walker.desk,
    ensures
        desks_match(after, taken),
{
    assert forall|j: int|
        0 <= j < after.len() && (#[trigger] after[j]).walker.desk is Some implies after[j].walker.desk->0
        < NUM_DESKS && taken[after[j].walker.desk->0 as int] by {
        assert(before[j].walker.desk == after[j].walker.desk);
    }
    assert forall|d: int| 0 <= d < NUM_DESKS && #[trigger] taken[d] implies exists|j: int|
        0 <= j < after.len() && (#[trigger] after[j]).walker.desk == Some(d as usize) by {
        let j = choose|j: int| 0 <= j < before.len() && (#[trigger] before[j]).walker.desk == Some(d as usize);
        assert(after[j].walker.desk == before[j].walker.desk);
    }
    assert forall|j: int, k: int|
        0 <= j < k < after.len() && (#[trigger] after[j]).walker.desk is Some implies after[j].walker.desk
        != (#[trigger] after[k]).walker.desk by {
        assert(before[j].walker.desk == after[j].walker.desk);
        assert(before[k].walker.desk == after[k].walker.desk);
    }
}

} // verus!
