use vstd::multiset::Multiset;
use vstd::prelude::*;
use crate::agent::{
    centre, is_move, lemma_decision_conserves, record, Agent, AgentConfig, AgentStates, AgentView,
};
use crate::grid::{
    free_cells, grid_items, held, lemma_item_count, lemma_set_cell, matrix, set_cell, Grid,
};
use crate::item::{Item, UNIT};
use crate::random::random_below;

verus! {

/// Phase of a run.
#[allow(non_camel_case_types)]
#[derive(Clone, Copy, Debug, PartialEq, Eq, Structural)]
pub enum SimState {
    /// Ordinary rounds, every agent stepping.
    RUNNING,
    /// Rounds after the budget: only finishing agents step, until none is left.
    DRAINING,
    /// Every item is on the grid and every agent is done.
    COMPLETE,
}

/// Parameters of a run.
#[derive(Clone, Copy, Debug)]
pub struct SimConfig {
    /// Number of ordinary rounds before draining.
    pub max_iters: usize,
    pub mapa_height: usize,
    pub mapa_width: usize,
    pub qtd_agents: usize,
    pub agent_vision_radius: usize,
    /// Capacity of each agent's move history.
    pub queue_size: usize,
    /// Distance, in coordinate units, at which two items stop being similar.
    pub alpha: u32,
    /// Pick-up constant, in units of `1 / UNIT`.
    pub k_pick: u64,
    /// Drop constant, in units of `1 / UNIT`.
    pub k_drop: u64,
}

impl SimConfig {
    pub open spec fn spec_agent_config(&self) -> AgentConfig {
        AgentConfig {
            vision_radius: self.agent_vision_radius,
            map_height: self.mapa_height,
            map_width: self.mapa_width,
            queue_size: self.queue_size,
            alpha: self.alpha,
            k_pick: self.k_pick,
            k_drop: self.k_drop,
        }
    }

    pub open spec fn valid(&self) -> bool {
        &&& self.spec_agent_config().valid()
        &&& self.max_iters >= 1
    }

    /// The configuration each agent of the run gets.
    #[verifier::when_used_as_spec(spec_agent_config)]
    pub fn agent_config(&self) -> (c: AgentConfig)
        ensures
            c == self.spec_agent_config(),
    {
        AgentConfig {
            vision_radius: self.agent_vision_radius,
            map_height: self.mapa_height,
            map_width: self.mapa_width,
            queue_size: self.queue_size,
            alpha: self.alpha,
            k_pick: self.k_pick,
            k_drop: self.k_drop,
        }
    }
}

/// The items in the agents' backpacks.
pub open spec fn carried(agents: Seq<AgentView>) -> Multiset<Item>
    decreases agents.len(),
{
    if agents.len() == 0 {
        Multiset::empty()
    } else {
        carried(agents.drop_last()).add(held(agents.last().backpack))
    }
}

/// Number of agents holding an item.
pub open spec fn carrying(agents: Seq<AgentView>) -> nat
    decreases agents.len(),
{
    if agents.len() == 0 {
        0
    } else {
        carrying(agents.drop_last()) + if agents.last().backpack.is_empty() {
            0nat
        } else {
            1nat
        }
    }
}

proof fn lemma_carried_len(agents: Seq<AgentView>)
    ensures
        carried(agents).len() == carrying(agents),
    decreases agents.len(),
{
    if agents.len() > 0 {
        lemma_carried_len(agents.drop_last());
    }
}

proof fn lemma_carried_update(agents: Seq<AgentView>, k: int, a: AgentView)
    requires
        0 <= k < agents.len(),
    ensures
        carried(agents.update(k, a)).add(held(agents[k].backpack)) == carried(agents).add(
            held(a.backpack),
        ),
    decreases agents.len(),
{
    let new_agents = agents.update(k, a);
    let rest = agents.drop_last();
    if k == agents.len() - 1 {
        assert(new_agents.drop_last() =~= rest);
        assert(carried(new_agents).add(held(agents[k].backpack)) =~= carried(agents).add(
            held(a.backpack),
        ));
    } else {
        assert(new_agents.drop_last() =~= rest.update(k, a));
        lemma_carried_update(rest, k, a);
        assert(new_agents.last() == agents.last());
        assert(carried(new_agents) == carried(rest.update(k, a)).add(held(agents.last().backpack)));
        assert(carried(agents) == carried(rest).add(held(agents.last().backpack)));
        let x = carried(rest.update(k, a));
        let y = carried(rest);
        assert(rest[k] == agents[k]);
        assert forall|v: Item|
            #[trigger] carried(new_agents).add(held(agents[k].backpack)).count(v) == carried(
                agents,
            ).add(held(a.backpack)).count(v) by {
            assert(x.add(held(agents[k].backpack)).count(v) == y.add(held(a.backpack)).count(v));
        }
        assert(carried(new_agents).add(held(agents[k].backpack)) =~= carried(agents).add(
            held(a.backpack),
        ));
    }
}

/// The views of a vector of agents.
pub open spec fn views(agents: Seq<Agent>) -> Seq<AgentView> {
    agents.map_values(|a: Agent| a@)
}

/// A run as the contracts see it.
pub struct SimView {
    pub grid: Seq<Seq<Item>>,
    pub agents: Seq<AgentView>,
    pub state: SimState,
    pub iteration: nat,
    pub extra_iters: nat,
    pub config: SimConfig,
    /// The items of the run, fixed when it starts.
    pub stock: Multiset<Item>,
}

impl SimView {
    /// Everything the grid and the backpacks hold.
    pub open spec fn contents(self) -> Multiset<Item> {
        grid_items(self.grid).add(carried(self.agents))
    }

    /// Some agent still has to drop its item.
    pub open spec fn any_finishing(self) -> bool {
        exists|k: int| 0 <= k < self.agents.len() && (#[trigger] self.agents[k]).state == AgentStates::FINISHING
    }
}

/// A simulation: one grid, its agents, and the phase of the run.
pub struct Sim {
    grid: Grid,
    agents: Vec<Agent>,
    state: SimState,
    iter_atual: usize,
    extra_iters: usize,
    config: SimConfig,
    stock: Ghost<Multiset<Item>>,
}

impl View for Sim {
    type V = SimView;

    closed spec fn view(&self) -> SimView {
        SimView {
            grid: self.grid@,
            agents: views(self.agents@),
            state: self.state,
            iteration: self.iter_atual as nat,
            extra_iters: self.extra_iters as nat,
            config: self.config,
            stock: self.stock@,
        }
    }
}

/// `next` is `prev` after one round of the phase `prev` was in.
pub open spec fn round_step(prev: SimView, next: SimView) -> bool {
    &&& next.config == prev.config
    &&& next.stock == prev.stock
    &&& next.agents.len() == prev.agents.len()
    &&& match prev.state {
        SimState::RUNNING => {
            &&& next.iteration == prev.iteration + 1
            &&& next.extra_iters == prev.extra_iters
            &&& next.state == if next.iteration >= prev.config.max_iters {
                SimState::DRAINING
            } else {
                SimState::RUNNING
            }
        },
        SimState::DRAINING => {
            &&& next.iteration == prev.iteration
            &&& if !prev.any_finishing() {
                &&& next.state == SimState::COMPLETE
                &&& next.grid == prev.grid
                &&& next.agents == prev.agents
                &&& next.extra_iters == prev.extra_iters
            } else {
                &&& next.state == SimState::DRAINING
                &&& next.extra_iters == if prev.extra_iters < usize::MAX {
                    prev.extra_iters + 1
                } else {
                    prev.extra_iters
                }
                &&& forall|k: int|
                    0 <= k < prev.agents.len() && prev.agents[k].state != AgentStates::FINISHING
                        ==> #[trigger] next.agents[k] == prev.agents[k]
            }
        },
        SimState::COMPLETE => next == prev,
    }
}

/// A grid and its agents between two agent steps.
pub type Snapshot = (Seq<Seq<Item>>, Seq<AgentView>);

/// Agent `k` takes one step from `before` to `after` with `draw`: it
/// decides on the window it sees, moves to a neighbouring cell, and the
/// centre of its window is written back to the cell it left. No other
/// agent changes.
pub open spec fn agent_step(before: Snapshot, k: int, draw: nat, after: Snapshot) -> bool {
    let (g, agents) = before;
    let a = agents[k];
    let a2 = after.1[k];
    let h = a.config.map_height as nat;
    let w = a.config.map_width as nat;
    let (state, backpack, c) = a.after_decision(a.seen(g), draw);
    &&& after.1 == agents.update(k, a2)
    &&& a2.state == state
    &&& a2.backpack == backpack
    &&& a2.config == a.config
    &&& is_move(a.pos, a2.pos, h, w)
    &&& a2.history == record(a.history, a2.pos, a.config.queue_size as nat)
    &&& after.0 == set_cell(g, a.pos.i as int, a.pos.j as int, c)
}

/// Step `k` of a round: agent `k` steps, unless only finishing agents
/// step and it is not finishing at its turn.
pub open spec fn turn(trace: Seq<Snapshot>, k: int, draws: Seq<u64>, only_finishing: bool) -> bool {
    if !only_finishing || trace[k].1[k].state == AgentStates::FINISHING {
        agent_step(trace[k], k, draws[k] as nat, trace[k + 1])
    } else {
        trace[k + 1] == trace[k]
    }
}

/// `trace` runs a round from `start`: one turn per agent, in index order,
/// each seeing what the turns before it wrote.
pub open spec fn round_trace(
    trace: Seq<Snapshot>,
    start: Snapshot,
    draws: Seq<u64>,
    only_finishing: bool,
) -> bool {
    &&& trace.len() == start.1.len() + 1
    &&& trace[0] == start
    &&& forall|k: int| 0 <= k < start.1.len() ==> #[trigger] turn(trace, k, draws, only_finishing)
}

/// Every agent of `agents` told that the run has ended.
pub open spec fn all_finished(agents: Seq<AgentView>) -> Seq<AgentView> {
    Seq::new(agents.len(), |k: int| AgentView { state: agents[k].state.finished(), ..agents[k] })
}

/// `next` is `prev` after one round with `draws`: the phase-level facts
/// of `round_step`, and what the agents did, turn by turn.
pub open spec fn round_with(prev: SimView, next: SimView, draws: Seq<u64>) -> bool {
    &&& round_step(prev, next)
    &&& match prev.state {
        SimState::RUNNING => exists|trace: Seq<Snapshot>|
            #[trigger] round_trace(trace, (prev.grid, prev.agents), draws, false) && next.grid
                == trace.last().0 && next.agents == if next.state == SimState::DRAINING {
                all_finished(trace.last().1)
            } else {
                trace.last().1
            },
        SimState::DRAINING => prev.any_finishing() ==> exists|trace: Seq<Snapshot>|
            #[trigger] round_trace(trace, (prev.grid, prev.agents), draws, true) && next.grid
                == trace.last().0 && next.agents == trace.last().1,
        SimState::COMPLETE => true,
    }
}

proof fn lemma_carried_empty(agents: Seq<AgentView>)
    requires
        forall|k: int| 0 <= k < agents.len() ==> (#[trigger] agents[k]).backpack == Item::empty(),
    ensures
        carried(agents) =~= Multiset::<Item>::empty(),
    decreases agents.len(),
{
    if agents.len() > 0 {
        let rest = agents.drop_last();
        assert forall|k: int| 0 <= k < rest.len() implies (#[trigger] rest[k]).backpack == Item::empty() by {
            assert(rest[k] == agents[k]);
        }
        lemma_carried_empty(rest);
    }
}

/// `x + a == y + b`, `z + c == w + d` and `b + d == a + c` give
/// `x + z == y + w`: an item handed from one place to another is counted
/// once before and once after.
proof fn lemma_transfer(
    x: Multiset<Item>,
    y: Multiset<Item>,
    z: Multiset<Item>,
    w: Multiset<Item>,
    a: Multiset<Item>,
    b: Multiset<Item>,
    c: Multiset<Item>,
    d: Multiset<Item>,
)
    requires
        x.add(a) == y.add(b),
        z.add(c) == w.add(d),
        b.add(d) == a.add(c),
    ensures
        x.add(z) == y.add(w),
{
    assert forall|v: Item| #[trigger] x.add(z).count(v) == y.add(w).count(v) by {
        broadcast use vstd::multiset::group_multiset_axioms;

        assert(x.add(a).count(v) == y.add(b).count(v));
        assert(x.add(a).count(v) == x.count(v) + a.count(v));
        assert(y.add(b).count(v) == y.count(v) + b.count(v));
        assert(z.add(c).count(v) == w.add(d).count(v));
        assert(z.add(c).count(v) == z.count(v) + c.count(v));
        assert(w.add(d).count(v) == w.count(v) + d.count(v));
        assert(b.add(d).count(v) == a.add(c).count(v));
        assert(b.add(d).count(v) == b.count(v) + d.count(v));
        assert(a.add(c).count(v) == a.count(v) + c.count(v));
        assert(x.add(z).count(v) == x.count(v) + z.count(v));
        assert(y.add(w).count(v) == y.count(v) + w.count(v));
    }
    assert(x.add(z) =~= y.add(w));
}

/// Number of agents still finishing.
pub open spec fn finishing(agents: Seq<AgentView>) -> nat
    decreases agents.len(),
{
    if agents.len() == 0 {
        0
    } else {
        finishing(agents.drop_last()) + if agents.last().state == AgentStates::FINISHING {
            1nat
        } else {
            0nat
        }
    }
}

proof fn lemma_finishing_le(prev: Seq<AgentView>, next: Seq<AgentView>)
    requires
        next.len() == prev.len(),
        forall|k: int|
            0 <= k < prev.len() && prev[k].state != AgentStates::FINISHING ==> #[trigger] next[k]
                == prev[k],
    ensures
        finishing(next) <= finishing(prev),
    decreases prev.len(),
{
    if prev.len() > 0 {
        let (p, n) = (prev.drop_last(), next.drop_last());
        assert forall|k: int|
            0 <= k < p.len() && p[k].state != AgentStates::FINISHING implies #[trigger] n[k] == p[k] by {
            assert(prev[k] == p[k] && next[k] == n[k]);
        }
        lemma_finishing_le(p, n);
        assert(prev.last().state != AgentStates::FINISHING ==> next[prev.len() - 1] == prev[prev.len()
            - 1]);
    }
}

proof fn lemma_none_finishing(agents: Seq<AgentView>)
    requires
        finishing(agents) == 0,
    ensures
        forall|k: int| 0 <= k < agents.len() ==> (#[trigger] agents[k]).state != AgentStates::FINISHING,
    decreases agents.len(),
{
    if agents.len() > 0 {
        let rest = agents.drop_last();
        lemma_none_finishing(rest);
        assert forall|k: int| 0 <= k < agents.len() implies (#[trigger] agents[k]).state
            != AgentStates::FINISHING by {
            if k < rest.len() {
                assert(agents[k] == rest[k]);
            }
        }
    }
}

/// A drain round never loses ground: no agent that has stopped finishing
/// starts again, so the number of finishing agents never grows; and a
/// round that starts with none finishing completes the run, after which
/// nothing changes.
pub proof fn lemma_drain_progress(prev: SimView, next: SimView)
    requires
        prev.state == SimState::DRAINING,
        round_step(prev, next),
    ensures
        finishing(next.agents) <= finishing(prev.agents),
        finishing(prev.agents) == 0 ==> next.state == SimState::COMPLETE,
        forall|later: SimView| next.state == SimState::COMPLETE && round_step(next, later) ==> later == next,
{
    if prev.any_finishing() {
        lemma_finishing_le(prev.agents, next.agents);
    }
    if finishing(prev.agents) == 0 {
        lemma_none_finishing(prev.agents);
    }
}

/// Items are conserved, counted: in every well-formed state of a run the
/// non-empty cells and the agents holding an item number exactly the
/// items the run started with.
pub proof fn lemma_conserved_count(s: &Sim)
    requires
        s.core_wf(),
    ensures
        s@.config.mapa_height * s@.config.mapa_width - free_cells(s@.grid) + carrying(s@.agents)
            == s@.stock.len(),
{
    lemma_item_count(s@.grid, s@.config.mapa_width as nat);
    lemma_carried_len(s@.agents);
}

impl Sim {
    /// The run's invariant. Items are conserved: the grid and the
    /// backpacks together hold exactly the items the run started with.
    /// Every agent is well formed (its backpack is empty exactly when it
    /// carries nothing) and shares the run's configuration. Once the run
    /// drains, no agent is searching or carrying; once it is complete,
    /// every agent is done.
    pub open spec fn wf(&self) -> bool {
        let v = self@;
        &&& self.core_wf()
        &&& (v.state == SimState::RUNNING ==> v.iteration < v.config.max_iters)
        &&& (v.state != SimState::RUNNING ==> forall|k: int|
            0 <= k < v.agents.len() ==> (#[trigger] v.agents[k]).state == AgentStates::FINISHING
                || v.agents[k].state == AgentStates::DONE)
        &&& (v.state == SimState::COMPLETE ==> forall|k: int|
            0 <= k < v.agents.len() ==> (#[trigger] v.agents[k]).state == AgentStates::DONE)
    }

    /// The part of the invariant that holds in every phase.
    pub open spec fn core_wf(&self) -> bool {
        let v = self@;
        &&& v.config.valid()
        &&& self.grid_wf()
        &&& forall|k: int|
            0 <= k < v.agents.len() ==> (#[trigger] v.agents[k]).wf() && v.agents[k].config
                == v.config.spec_agent_config()
        &&& v.contents() == v.stock
    }

    pub closed spec fn grid_wf(&self) -> bool {
        &&& self.grid.wf()
        &&& self.grid.spec_height() == self.config.mapa_height
        &&& self.grid.spec_width() == self.config.mapa_width
    }

    proof fn lemma_view(&self)
        ensures
            self@.agents.len() == self.agents@.len(),
            forall|k: int| 0 <= k < self.agents@.len() ==> #[trigger] self@.agents[k] == self.agents@[k]@,
    {
    }

    /// A new run: `items` scattered uniformly over an empty grid, and
    /// `qtd_agents` searching agents at uniformly drawn cells.
    pub fn create(config: SimConfig, items: &Vec<Item>) -> (s: Sim)
        requires
            config.valid(),
            items@.len() <= config.mapa_height * config.mapa_width,
            forall|k: int| 0 <= k < items@.len() ==> !(#[trigger] items@[k]).is_empty(),
        ensures
            s.wf(),
            s@.state == SimState::RUNNING,
            s@.iteration == 0,
            s@.extra_iters == 0,
            s@.config == config,
            s@.stock == items@.to_multiset(),
            grid_items(s@.grid) == items@.to_multiset(),
            s@.agents.len() == config.qtd_agents,
            forall|k: int|
                0 <= k < s@.agents.len() ==> (#[trigger] s@.agents[k]).state == AgentStates::SEARCHING
                    && s@.agents[k].backpack == Item::empty(),
    {
        let mut grid = Grid::new(config.mapa_height, config.mapa_width);
        grid.scatter(items);
        let agents = Agent::create_agents(config.agent_config(), config.qtd_agents);
        let s = Sim {
            grid,
            agents,
            state: SimState::RUNNING,
            iter_atual: 0,
            extra_iters: 0,
            config,
            stock: Ghost(items@.to_multiset()),
        };
        proof {
            s.lemma_view();
            lemma_carried_empty(s@.agents);
            assert(Multiset::<Item>::empty().add(items@.to_multiset()) =~= items@.to_multiset());
            assert(s@.contents() =~= items@.to_multiset());
        }
        s
    }

    /// A run that starts from a given grid and agents; the items it holds
    /// are those on the grid and in the backpacks.
    pub fn from_parts(config: SimConfig, grid: Grid, agents: Vec<Agent>) -> (s: Sim)
        requires
            config.valid(),
            grid.wf(),
            grid.spec_height() == config.mapa_height,
            grid.spec_width() == config.mapa_width,
            forall|k: int|
                0 <= k < agents@.len() ==> (#[trigger] agents@[k]).wf() && agents@[k]@.config
                    == config.spec_agent_config(),
        ensures
            s.wf(),
            s@.state == SimState::RUNNING,
            s@.iteration == 0,
            s@.extra_iters == 0,
            s@.config == config,
            s@.grid == grid@,
            s@.agents == views(agents@),
            s@.stock == grid_items(grid@).add(carried(views(agents@))),
    {
        let ghost stock = grid_items(grid@).add(carried(views(agents@)));
        let s = Sim {
            grid,
            agents,
            state: SimState::RUNNING,
            iter_atual: 0,
            extra_iters: 0,
            config,
            stock: Ghost(stock),
        };
        proof {
            s.lemma_view();
        }
        s
    }

    pub fn get_state(&self) -> (s: SimState)
        ensures
            s == self@.state,
    {
        self.state
    }

    pub fn grid(&self) -> (g: &Grid)
        requires
            self.wf(),
        ensures
            g@ == self@.grid,
            g.wf(),
            g.spec_height() == self@.config.mapa_height,
            g.spec_width() == self@.config.mapa_width,
    {
        &self.grid
    }

    pub fn agents(&self) -> (a: &Vec<Agent>)
        ensures
            views(a@) == self@.agents,
    {
        &self.agents
    }

    /// Number of drain rounds so far.
    pub fn extra_iters(&self) -> (n: usize)
        ensures
            n == self@.extra_iters,
    {
        self.extra_iters
    }

    /// Number of ordinary rounds so far.
    pub fn iteration(&self) -> (n: usize)
        ensures
            n == self@.iteration,
    {
        self.iter_atual
    }

    pub fn config(&self) -> (c: SimConfig)
        ensures
            c == self@.config,
    {
        self.config
    }

    /// Steps agent `k` with `draw` and writes the centre of its window
    /// back to the grid. Items are conserved.
    fn step_agent(&mut self, k: usize, draw: u64)
        requires
            old(self).core_wf(),
            k < old(self)@.agents.len(),
        ensures
            final(self).core_wf(),
            final(self)@.state == old(self)@.state,
            final(self)@.iteration == old(self)@.iteration,
            final(self)@.extra_iters == old(self)@.extra_iters,
            final(self)@.config == old(self)@.config,
            final(self)@.stock == old(self)@.stock,
            final(self)@.agents.len() == old(self)@.agents.len(),
            forall|l: int|
                0 <= l < old(self)@.agents.len() && l != k ==> #[trigger] final(self)@.agents[l]
                    == old(self)@.agents[l],
            agent_step(
                (old(self)@.grid, old(self)@.agents),
                k as int,
                draw as nat,
                (final(self)@.grid, final(self)@.agents),
            ),
    {
        proof {
            self.lemma_view();
        }
        let ghost g0 = self.grid@;
        let ghost ags0 = self@.agents;
        let ghost a0 = self@.agents[k as int];
        let pos = self.agents[k].get_pos();
        let w = self.agents[k].update_agent_with(&self.grid, draw);
        let r = self.config.agent_vision_radius;
        assert(matrix(&w)[r as int] == w@[r as int]@);
        let c = w[r][r];
        self.grid.write_cell(pos, c);
        proof {
            self.lemma_view();
            let a1 = self@.agents[k as int];
            let seen = a0.seen(g0);
            let (state, backpack, c1) = a0.after_decision(seen, draw as nat);
            assert(c == c1);
            lemma_decision_conserves(a0, seen, draw as nat);
            lemma_set_cell(g0, pos.i as int, pos.j as int, c);
            lemma_carried_update(ags0, k as int, a1);
            assert(self@.agents =~= ags0.update(k as int, a1));
            lemma_transfer(
                grid_items(self@.grid),
                grid_items(g0),
                carried(self@.agents),
                carried(ags0),
                held(centre(seen, r as nat)),
                held(c),
                held(a0.backpack),
                held(a1.backpack),
            );
        }
    }

    /// Announces the end of the run to every agent.
    fn finish_all(&mut self)
        requires
            old(self).core_wf(),
        ensures
            final(self).core_wf(),
            final(self)@ == (SimView { agents: final(self)@.agents, ..old(self)@ }),
            final(self)@.agents.len() == old(self)@.agents.len(),
            forall|k: int|
                0 <= k < old(self)@.agents.len() ==> #[trigger] final(self)@.agents[k] == (AgentView {
                    state: old(self)@.agents[k].state.finished(),
                    ..old(self)@.agents[k]
                }),
            final(self)@.agents == all_finished(old(self)@.agents),
    {
        proof {
            self.lemma_view();
        }
        let n = self.agents.len();
        for k in 0..n
            invariant
                n == old(self)@.agents.len(),
                self.core_wf(),
                self@ == (SimView { agents: self@.agents, ..old(self)@ }),
                self@.agents.len() == n,
                forall|l: int|
                    0 <= l < k ==> #[trigger] self@.agents[l] == (AgentView {
                        state: old(self)@.agents[l].state.finished(),
                        ..old(self)@.agents[l]
                    }),
                forall|l: int| k <= l < n ==> #[trigger] self@.agents[l] == old(self)@.agents[l],
        {
            proof {
                self.lemma_view();
                assert(self@.agents[k as int].wf());
            }
            let ghost ags0 = self@.agents;
            self.agents[k].finish();
            proof {
                self.lemma_view();
                let a1 = self@.agents[k as int];
                assert(self@.agents =~= ags0.update(k as int, a1));
                lemma_carried_update(ags0, k as int, a1);
                assert forall|v: Item| #[trigger] carried(self@.agents).count(v) == carried(ags0).count(
                    v,
                ) by {
                    assert(carried(self@.agents).add(held(a1.backpack)).count(v) == carried(ags0).add(
                        held(a1.backpack),
                    ).count(v));
                }
                assert(carried(self@.agents) =~= carried(ags0));
            }
        }
        assert(self@.agents =~= all_finished(old(self)@.agents));
    }

    /// One ordinary round: every agent steps in index order, each seeing
    /// the writes of those before it. After the last budgeted round the run
    /// starts draining.
    fn update_running(&mut self, draws: &Vec<u64>)
        requires
            old(self).wf(),
            old(self)@.state == SimState::RUNNING,
            draws@.len() == old(self)@.agents.len(),
        ensures
            final(self).wf(),
            round_with(old(self)@, final(self)@, draws@),
    {
        let n = self.agents.len();
        proof {
            self.lemma_view();
        }
        let ghost start: Snapshot = (self@.grid, self@.agents);
        let ghost mut trace: Seq<Snapshot> = seq![start];
        for k in 0..n
            invariant
                n == old(self)@.agents.len(),
                draws@.len() == n,
                self.wf(),
                self@.state == SimState::RUNNING,
                self@.agents.len() == n,
                self@.iteration == old(self)@.iteration,
                self@.extra_iters == old(self)@.extra_iters,
                self@.config == old(self)@.config,
                self@.stock == old(self)@.stock,
                start == (old(self)@.grid, old(self)@.agents),
                trace.len() == k + 1,
                trace[0] == start,
                trace.last() == (self@.grid, self@.agents),
                forall|l: int| 0 <= l < k ==> #[trigger] turn(trace, l, draws@, false),
        {
            self.step_agent(k, draws[k]);
            proof {
                let earlier = trace;
                trace = trace.push((self@.grid, self@.agents));
                assert forall|l: int| 0 <= l < k + 1 implies #[trigger] turn(trace, l, draws@, false) by {
                    if l < k {
                        assert(turn(earlier, l, draws@, false));
                        assert(trace[l] == earlier[l] && trace[l + 1] == earlier[l + 1]);
                    } else {
                        assert(trace[l] == earlier[l]);
                    }
                }
            }
        }
        assert(round_trace(trace, start, draws@, false));
        self.iter_atual = self.iter_atual + 1;
        if self.iter_atual >= self.config.max_iters {
            self.finish_all();
            self.state = SimState::DRAINING;
            proof {
                self.lemma_view();
            }
        }
    }

    /// One drain round: the agents still finishing step in index order;
    /// when none is left the run is complete.
    fn update_finishing(&mut self, draws: &Vec<u64>)
        requires
            old(self).wf(),
            old(self)@.state == SimState::DRAINING,
            draws@.len() == old(self)@.agents.len(),
        ensures
            final(self).wf(),
            round_with(old(self)@, final(self)@, draws@),
    {
        let n = self.agents.len();
        proof {
            self.lemma_view();
        }
        let mut any = false;
        for k in 0..n
            invariant
                n == old(self)@.agents.len(),
                self@ == old(self)@,
                any <==> exists|l: int| 0 <= l < k && (#[trigger] self@.agents[l]).state == AgentStates::FINISHING,
        {
            proof {
                self.lemma_view();
            }
            if self.agents[k].is_finishing() {
                any = true;
            }
            assert(self@.agents[k as int].state == AgentStates::FINISHING ==> any);
        }
        if !any {
            self.state = SimState::COMPLETE;
            proof {
                self.lemma_view();
                assert(!old(self)@.any_finishing());
                assert forall|k: int| 0 <= k < self@.agents.len() implies (#[trigger] self@.agents[k]).state
                    == AgentStates::DONE by {
                    assert(old(self)@.agents[k].state != AgentStates::FINISHING);
                }
            }
            return;
        }
        assert(old(self)@.any_finishing());
        let ghost start: Snapshot = (self@.grid, self@.agents);
        let ghost mut trace: Seq<Snapshot> = seq![start];
        for k in 0..n
            invariant
                n == old(self)@.agents.len(),
                draws@.len() == n,
                self.wf(),
                self@.state == SimState::DRAINING,
                self@.agents.len() == n,
                self@.iteration == old(self)@.iteration,
                self@.extra_iters == old(self)@.extra_iters,
                self@.config == old(self)@.config,
                self@.stock == old(self)@.stock,
                forall|l: int|
                    0 <= l < n && (l >= k || old(self)@.agents[l].state != AgentStates::FINISHING)
                        ==> #[trigger] self@.agents[l] == old(self)@.agents[l],
                start == (old(self)@.grid, old(self)@.agents),
                trace.len() == k + 1,
                trace[0] == start,
                trace.last() == (self@.grid, self@.agents),
                forall|l: int| 0 <= l < k ==> #[trigger] turn(trace, l, draws@, true),
        {
            proof {
                self.lemma_view();
            }
            if self.agents[k].is_finishing() {
                self.step_agent(k, draws[k]);
            }
            proof {
                let earlier = trace;
                trace = trace.push((self@.grid, self@.agents));
                assert forall|l: int| 0 <= l < k + 1 implies #[trigger] turn(trace, l, draws@, true) by {
                    if l < k {
                        assert(turn(earlier, l, draws@, true));
                        assert(trace[l] == earlier[l] && trace[l + 1] == earlier[l + 1]);
                    } else {
                        assert(trace[l] == earlier[l]);
                    }
                }
            }
        }
        assert(round_trace(trace, start, draws@, true));
        if self.extra_iters < usize::MAX {
            self.extra_iters = self.extra_iters + 1;
        }
    }

    /// One round with the given draws, one per agent in index order, each
    /// a uniform draw in `0..=UNIT`. Moves are drawn inside.
    pub fn update_with(&mut self, draws: &Vec<u64>)
        requires
            old(self).wf(),
            draws@.len() == old(self)@.agents.len(),
        ensures
            final(self).wf(),
            round_with(old(self)@, final(self)@, draws@),
    {
        match self.state {
            SimState::RUNNING => self.update_running(draws),
            SimState::DRAINING => self.update_finishing(draws),
            SimState::COMPLETE => {},
        }
    }

    /// One round with fresh uniform draws.
    pub fn update(&mut self)
        requires
            old(self).wf(),
        ensures
            final(self).wf(),
            round_step(old(self)@, final(self)@),
            exists|draws: Seq<u64>|
                draws.len() == old(self)@.agents.len() && (forall|k: int|
                    0 <= k < draws.len() ==> #[trigger] draws[k] <= UNIT) && #[trigger] round_with(
                    old(self)@,
                    final(self)@,
                    draws,
                ),
    {
        proof {
            self.lemma_view();
        }
        let n = self.agents.len();
        let mut draws: Vec<u64> = Vec::new();
        for k in 0..n
            invariant
                draws@.len() == k,
                forall|l: int| 0 <= l < k ==> #[trigger] draws@[l] <= UNIT,
        {
            draws.push(random_below(UNIT as usize + 1) as u64);
        }
        self.update_with(&draws);
        assert(round_with(old(self)@, self@, draws@));
    }
}

} // verus!
