use std::collections::VecDeque;
use vstd::prelude::*;
use crate::density::{get_density, local_density};
use crate::grid::{held, is_window, matrix, set_cell, window_at, wrap, Grid, MAX_RADIUS};
use crate::item::{Item, Point, UNIT};
use crate::random::random_below;

verus! {

/// Largest tunable constant `k_pick` or `k_drop` accepted, in units of
/// `1 / UNIT` (a thousand).
pub const MAX_K: u64 = 1_000_000_000;

/// What an agent is doing.
#[allow(non_camel_case_types)]
#[derive(Clone, Copy, Debug, PartialEq, Eq, Structural)]
pub enum AgentStates {
    /// Holding an item, looking for a place to drop it.
    CARRYING,
    /// Holding nothing, looking for an item to pick up.
    SEARCHING,
    /// Holding an item after the end of the run; done once it is dropped.
    FINISHING,
    /// Finished: holds nothing and takes no more decisions.
    DONE,
}

impl AgentStates {
    /// An agent in this state holds an item.
    pub open spec fn carries(self) -> bool {
        self == AgentStates::CARRYING || self == AgentStates::FINISHING
    }

    /// The state after the end of the run is announced.
    pub open spec fn finished(self) -> AgentStates {
        match self {
            AgentStates::CARRYING => AgentStates::FINISHING,
            AgentStates::SEARCHING => AgentStates::DONE,
            AgentStates::FINISHING => AgentStates::FINISHING,
            AgentStates::DONE => AgentStates::DONE,
        }
    }

    /// The state's name in capitals.
    pub open spec fn spec_name(self) -> Seq<char> {
        match self {
            AgentStates::CARRYING => "CARRYING"@,
            AgentStates::SEARCHING => "SEARCHING"@,
            AgentStates::FINISHING => "FINISHING"@,
            AgentStates::DONE => "DONE"@,
        }
    }

    /// The state's name in capitals.
    pub fn name(&self) -> (s: &'static str)
        ensures
            s@ == self.spec_name(),
    {
        match self {
            AgentStates::CARRYING => "CARRYING",
            AgentStates::SEARCHING => "SEARCHING",
            AgentStates::FINISHING => "FINISHING",
            AgentStates::DONE => "DONE",
        }
    }
}

/// Parameters shared by the agents of one run.
#[derive(Clone, Copy, Debug)]
pub struct AgentConfig {
    /// Radius of the square window an agent sees around itself.
    pub vision_radius: usize,
    pub map_height: usize,
    pub map_width: usize,
    /// Capacity of the move history, and the number of distinct moves
    /// tried before a recently visited cell is accepted.
    pub queue_size: usize,
    /// Distance, in coordinate units, at which two items stop being similar.
    pub alpha: u32,
    /// Pick-up constant, in units of `1 / UNIT`.
    pub k_pick: u64,
    /// Drop constant, in units of `1 / UNIT`.
    pub k_drop: u64,
}

impl AgentConfig {
    pub open spec fn valid(&self) -> bool {
        &&& self.vision_radius <= MAX_RADIUS
        &&& self.map_height > 0
        &&& self.map_width > 0
        &&& self.map_height * self.map_width <= usize::MAX
        &&& (self.map_height >= 2 || self.map_width >= 2)
        &&& self.queue_size >= 1
        &&& self.alpha > 0
        &&& 0 < self.k_pick <= MAX_K
        &&& 0 < self.k_drop <= MAX_K
    }

    /// `p` lies on the grid this configuration describes.
    pub open spec fn holds(&self, p: Point) -> bool {
        p.i < self.map_height && p.j < self.map_width
    }
}

/// `draw / UNIT <= (k / (k + density))^2`: a uniform draw accepts a pick-up.
pub open spec fn pickup_accepted(draw: nat, density: nat, k: nat) -> bool {
    draw * ((k + density) * (k + density)) <= UNIT * (k * k)
}

/// `draw / UNIT <= (density / (k + density))^2`: a uniform draw accepts a drop.
pub open spec fn drop_accepted(draw: nat, density: nat, k: nat) -> bool {
    draw * ((k + density) * (k + density)) <= UNIT * (density * density)
}

/// The previous position on a ring of `n` positions.
pub open spec fn ring_prev(c: nat, n: nat) -> nat {
    if c == 0 {
        (n - 1) as nat
    } else {
        (c - 1) as nat
    }
}

/// The next position on a ring of `n` positions.
pub open spec fn ring_next(c: nat, n: nat) -> nat {
    if c + 1 == n {
        0
    } else {
        c + 1
    }
}

/// `b` is `a` or one of its two neighbours on a ring of `n` positions.
pub open spec fn ring_adjacent(a: nat, b: nat, n: nat) -> bool {
    b == a || b == ring_prev(a, n) || b == ring_next(a, n)
}

/// `to` is one of the up to eight cells around `from` on an `h` by `w`
/// torus, and not `from` itself.
pub open spec fn is_move(from: Point, to: Point, h: nat, w: nat) -> bool {
    &&& to != from
    &&& to.i < h
    &&& to.j < w
    &&& ring_adjacent(from.i as nat, to.i as nat, h)
    &&& ring_adjacent(from.j as nat, to.j as nat, w)
}

/// `history` after recording `p`, keeping only the newest `cap` entries.
pub open spec fn record(history: Seq<Point>, p: Point, cap: nat) -> Seq<Point> {
    let s = history.push(p);
    if s.len() > cap {
        s.drop_first()
    } else {
        s
    }
}

/// The item at the centre of a window.
pub open spec fn centre(w: Seq<Seq<Item>>, radius: nat) -> Item {
    w[radius as int][radius as int]
}

/// An agent's state as the contracts see it.
pub struct AgentView {
    pub pos: Point,
    pub state: AgentStates,
    pub backpack: Item,
    pub history: Seq<Point>,
    pub config: AgentConfig,
}

impl AgentView {
    /// A valid configuration, a position on the grid, a backpack that
    /// holds an item exactly in the carrying states, and a history no
    /// longer than its capacity.
    pub open spec fn wf(self) -> bool {
        &&& self.config.valid()
        &&& self.config.holds(self.pos)
        &&& (self.backpack.is_empty() <==> !self.state.carries())
        &&& self.history.len() <= self.config.queue_size
    }

    /// A searching agent whose centre cell holds an item picks it up with
    /// this draw.
    pub open spec fn takes(self, w: Seq<Seq<Item>>, draw: nat) -> bool {
        let r = self.config.vision_radius as nat;
        let c = centre(w, r);
        &&& self.state == AgentStates::SEARCHING
        &&& !c.is_empty()
        &&& pickup_accepted(
            draw,
            local_density(w, r, c, self.config.alpha as nat),
            self.config.k_pick as nat,
        )
    }

    /// The window this agent sees on grid `g`.
    pub open spec fn seen(self, g: Seq<Seq<Item>>) -> Seq<Seq<Item>> {
        window_at(
            g,
            self.pos,
            self.config.vision_radius as nat,
            self.config.map_height as nat,
            self.config.map_width as nat,
        )
    }

    /// State, backpack and centre cell after this round's decision.
    pub open spec fn after_decision(self, w: Seq<Seq<Item>>, draw: nat) -> (AgentStates, Item, Item) {
        let c = centre(w, self.config.vision_radius as nat);
        if self.takes(w, draw) {
            (AgentStates::CARRYING, c, Item::empty())
        } else if self.drops(w, draw) {
            (
                if self.state == AgentStates::CARRYING {
                    AgentStates::SEARCHING
                } else {
                    AgentStates::DONE
                },
                Item::empty(),
                self.backpack,
            )
        } else {
            (self.state, self.backpack, c)
        }
    }

    /// A carrying or finishing agent on an empty centre cell drops its item
    /// with this draw.
    pub open spec fn drops(self, w: Seq<Seq<Item>>, draw: nat) -> bool {
        let r = self.config.vision_radius as nat;
        &&& self.state.carries()
        &&& centre(w, r).is_empty()
        &&& drop_accepted(
            draw,
            local_density(w, r, self.backpack, self.config.alpha as nat),
            self.config.k_drop as nat,
        )
    }
}

/// One wandering agent.
pub struct Agent {
    pos: Point,
    state: AgentStates,
    backpack: Item,
    history: VecDeque<Point>,
    config: AgentConfig,
}

impl View for Agent {
    type V = AgentView;

    closed spec fn view(&self) -> AgentView {
        AgentView {
            pos: self.pos,
            state: self.state,
            backpack: self.backpack,
            history: self.history@,
            config: self.config,
        }
    }
}

impl Agent {
    /// The agent's invariant; see `AgentView::wf`.
    pub open spec fn wf(&self) -> bool {
        self@.wf()
    }

    /// A searching agent at `pos` with an empty backpack, whose history
    /// holds its starting cell.
    pub fn new(pos: Point, config: AgentConfig) -> (a: Agent)
        requires
            config.valid(),
            config.holds(pos),
        ensures
            a.wf(),
            a@.pos == pos,
            a@.state == AgentStates::SEARCHING,
            a@.backpack == Item::empty(),
            a@.history == seq![pos],
            a@.config == config,
    {
        let mut history: VecDeque<Point> = VecDeque::new();
        history.push_back(pos);
        Agent { pos, state: AgentStates::SEARCHING, backpack: Item::clone_empty(), history, config }
    }

    pub fn get_pos(&self) -> (p: Point)
        ensures
            p == self@.pos,
    {
        self.pos
    }

    pub fn get_state(&self) -> (s: AgentStates)
        ensures
            s == self@.state,
    {
        self.state
    }

    pub fn backpack(&self) -> (b: Item)
        ensures
            b == self@.backpack,
    {
        self.backpack
    }

    pub fn config(&self) -> (c: AgentConfig)
        ensures
            c == self@.config,
    {
        self.config
    }

    /// The recorded positions, oldest first.
    pub fn history(&self) -> (h: Vec<Point>)
        ensures
            h@ == self@.history,
    {
        let mut h: Vec<Point> = Vec::new();
        for k in 0..self.history.len()
            invariant
                h@ == self@.history.subrange(0, k as int),
        {
            assert(self@.history.subrange(0, k + 1) =~= h@.push(self.history@[k as int]));
            h.push(self.history[k]);
        }
        assert(self@.history.subrange(0, self@.history.len() as int) =~= self@.history);
        h
    }

    /// Announces the end of the run: a carrying agent must now drop its
    /// item and finish, a searching one is done at once.
    pub fn finish(&mut self)
        requires
            old(self).wf(),
        ensures
            final(self).wf(),
            final(self)@ == (AgentView { state: old(self)@.state.finished(), ..old(self)@ }),
    {
        self.state = match self.state {
            AgentStates::CARRYING => AgentStates::FINISHING,
            AgentStates::SEARCHING => AgentStates::DONE,
            AgentStates::FINISHING => AgentStates::FINISHING,
            AgentStates::DONE => AgentStates::DONE,
        };
    }

    pub fn is_finishing(&self) -> (b: bool)
        ensures
            b == (self@.state == AgentStates::FINISHING),
    {
        self.state == AgentStates::FINISHING
    }

    /// The window this agent sees: its own cell lands at the centre.
    pub fn see_map(&self, grid: &Grid) -> (w: Vec<Vec<Item>>)
        requires
            self.wf(),
            grid.wf(),
            grid.spec_height() == self@.config.map_height,
            grid.spec_width() == self@.config.map_width,
        ensures
            is_window(matrix(&w), self@.config.vision_radius as nat),
            matrix(&w) == window_at(
                grid@,
                self@.pos,
                self@.config.vision_radius as nat,
                grid.spec_height() as nat,
                grid.spec_width() as nat,
            ),
            centre(matrix(&w), self@.config.vision_radius as nat) == grid.at(self@.pos),
            forall|a: int, b: int|
                0 <= a < 2 * self@.config.vision_radius + 1 && 0 <= b < 2
                    * self@.config.vision_radius + 1 ==> #[trigger] matrix(&w)[a][b] == grid@[wrap(
                    self@.pos.i + a - self@.config.vision_radius,
                    grid.spec_height() as nat,
                )][wrap(self@.pos.j + b - self@.config.vision_radius, grid.spec_width() as nat)],
    {
        let r = self.config.vision_radius;
        let w = grid.read_window(self.pos, r);
        proof {
            let m = matrix(&w);
            assert(m[r as int][r as int] == grid@[wrap(self.pos.i + r - r, grid.spec_height() as nat)][wrap(
                self.pos.j + r - r,
                grid.spec_width() as nat,
            )]);
            vstd::arithmetic::div_mod::lemma_small_mod(self.pos.i as nat, grid.spec_height() as nat);
            vstd::arithmetic::div_mod::lemma_small_mod(self.pos.j as nat, grid.spec_width() as nat);
        }
        w
    }

    /// The distinct cells one step away from the agent, itself excluded.
    fn candidate_moves(&self) -> (c: Vec<Point>)
        requires
            self.wf(),
        ensures
            0 < c@.len() <= 8,
            forall|k: int|
                0 <= k < c@.len() ==> is_move(
                    self@.pos,
                    #[trigger] c@[k],
                    self@.config.map_height as nat,
                    self@.config.map_width as nat,
                ),
            forall|q: Point|
                is_move(
                    self@.pos,
                    q,
                    self@.config.map_height as nat,
                    self@.config.map_width as nat,
                ) ==> #[trigger] c@.contains(q),
    {
        let h = self.config.map_height;
        let w = self.config.map_width;
        let ghost pos = self@.pos;
        let mut c: Vec<Point> = Vec::new();
        for t in 0..9usize
            invariant
                self.wf(),
                pos == self@.pos,
                h == self@.config.map_height,
                w == self@.config.map_width,
                forall|k: int|
                    0 <= k < c@.len() ==> is_move(self@.pos, #[trigger] c@[k], h as nat, w as nat),
                (h >= 2 && t > 7) ==> c@.len() > 0,
                (w >= 2 && t > 5) ==> c@.len() > 0,
                c@.len() + (if t > 4 { 1int } else { 0int }) <= t,
                forall|u: int|
                    0 <= u < t && #[trigger] step_point(pos, u, h as nat, w as nat) != pos
                        ==> c@.contains(step_point(pos, u, h as nat, w as nat)),
        {
            let p = Point { i: ring_step(self.pos.i, t / 3, h), j: ring_step(self.pos.j, t % 3, w) };
            assert(p == step_point(pos, t as int, h as nat, w as nat));
            let ghost c0 = c@;
            if p != self.pos && !contains_point(&c, p) {
                c.push(p);
                assert(c@[c@.len() - 1] == p);
            }
            assert(c@.contains(p) || p == pos);
            assert forall|q: Point| c0.contains(q) implies #[trigger] c@.contains(q) by {
                let k = choose|k: int| 0 <= k < c0.len() && c0[k] == q;
                assert(c@[k] == q);
            }
                }
        proof {
            assert forall|q: Point| is_move(pos, q, h as nat, w as nat) implies #[trigger] c@.contains(
                q,
            ) by {
                let di: int = if q.i == ring_prev(pos.i as nat, h as nat) {
                    0
                } else if q.i == pos.i {
                    1
                } else {
                    2
                };
                let dj: int = if q.j == ring_prev(pos.j as nat, w as nat) {
                    0
                } else if q.j == pos.j {
                    1
                } else {
                    2
                };
                let u = 3 * di + dj;
                assert(u / 3 == di && u % 3 == dj) by (nonlinear_arith)
                    requires
                        0 <= di < 3,
                        0 <= dj < 3,
                        u == 3 * di + dj,
                ;
                assert(step_point(pos, u, h as nat, w as nat) == q);
            }
        }
        c
    }

    /// Moves the agent to a random neighbouring cell, never staying put.
    /// Distinct candidates are drawn without repetition; one found in the
    /// recent history is refused, until `queue_size` candidates have been
    /// tried or none is left. So with a capacity of at least eight, the
    /// number of neighbours, the agent returns to a recent cell only when
    /// every neighbour is recent. The chosen cell is appended to the
    /// history, whose oldest entry goes once the capacity is exceeded.
    pub fn move_agent(&mut self)
        requires
            old(self).wf(),
        ensures
            final(self).wf(),
            is_move(
                old(self)@.pos,
                final(self)@.pos,
                old(self)@.config.map_height as nat,
                old(self)@.config.map_width as nat,
            ),
            (old(self)@.config.queue_size >= 8 && old(self)@.history.contains(final(self)@.pos))
                ==> forall|q: Point|
                is_move(
                    old(self)@.pos,
                    q,
                    old(self)@.config.map_height as nat,
                    old(self)@.config.map_width as nat,
                ) ==> #[trigger] old(self)@.history.contains(q),
            final(self)@.history == record(
                old(self)@.history,
                final(self)@.pos,
                old(self)@.config.queue_size as nat,
            ),
            final(self)@.state == old(self)@.state,
            final(self)@.backpack == old(self)@.backpack,
            final(self)@.config == old(self)@.config,
    {
        let mut cands = self.candidate_moves();
        let cap = self.config.queue_size;
        let ghost from = self@.pos;
        let ghost h = self@.config.map_height as nat;
        let ghost w = self@.config.map_width as nat;
        let ghost initial = cands@;
        let ghost mut tried: Seq<Point> = Seq::empty();
        let mut tries: usize = 0;
        let mut chosen: Point = self.pos;
        let mut found = false;
        while !found
            invariant
                self@ == old(self)@,
                cap == self@.config.queue_size,
                forall|k: int| 0 <= k < cands@.len() ==> is_move(from, #[trigger] cands@[k], h, w),
                forall|q: Point| is_move(from, q, h, w) ==> #[trigger] initial.contains(q),
                forall|q: Point|
                    #[trigger] initial.contains(q) ==> cands@.contains(q) || tried.contains(q),
                found ==> is_move(from, chosen, h, w),
                !found ==> cands@.len() > 0,
                tries == tried.len(),
                tries + cands@.len() == initial.len(),
                initial.len() <= 8,
                !found ==> forall|k: int| 0 <= k < tried.len() ==> self@.history.contains(#[trigger] tried[k]),
                found ==> tried.len() > 0 && chosen == tried.last(),
                found ==> forall|k: int|
                    0 <= k < tried.len() - 1 ==> self@.history.contains(#[trigger] tried[k]),
                found && self@.history.contains(chosen) ==> tries >= cap || cands@.len() == 0,
            decreases cands@.len(),
        {
            let idx = random_below(cands.len());
            let ghost before = cands@;
            let p = cands.swap_remove(idx);
            proof {
                assert forall|q: Point| before.contains(q) implies #[trigger] cands@.contains(q) || q == p by {
                    let m = choose|m: int| 0 <= m < before.len() && before[m] == q;
                    if m != idx && m != before.len() - 1 {
                        assert(cands@[m] == q);
                    } else if m == before.len() - 1 && m != idx {
                        assert(cands@[idx as int] == q);
                    }
                }
                let old_tried = tried;
                tried = tried.push(p);
                assert(tried[tried.len() - 1] == p);
                assert forall|q: Point| #[trigger] initial.contains(q) implies cands@.contains(q)
                    || tried.contains(q) by {
                    if old_tried.contains(q) {
                        let k = choose|k: int| 0 <= k < old_tried.len() && old_tried[k] == q;
                        assert(tried[k] == q);
                    } else if q == p {
                        assert(tried[tried.len() - 1] == q);
                    }
                }
            }
            tries += 1;
            if !history_contains(&self.history, p) || tries >= cap || cands.len() == 0 {
                chosen = p;
                found = true;
            }
        }
        proof {
            if cap >= 8 && self@.history.contains(chosen) {
                assert(cands@.len() == 0);
                assert forall|q: Point| is_move(from, q, h, w) implies #[trigger] self@.history.contains(q) by {
                    assert(initial.contains(q));
                    let k = choose|k: int| 0 <= k < tried.len() && tried[k] == q;
                    if k < tried.len() - 1 {
                        assert(self@.history.contains(tried[k]));
                    }
                }
            }
        }
        self.history.push_back(chosen);
        if self.history.len() > cap {
            self.history.pop_front();
        }
        self.pos = chosen;
        assert(self@.history =~= record(old(self)@.history, chosen, cap as nat));
    }

    /// `qtd` searching agents at uniformly drawn cells.
    pub fn create_agents(config: AgentConfig, qtd: usize) -> (agents: Vec<Agent>)
        requires
            config.valid(),
        ensures
            agents@.len() == qtd,
            forall|k: int|
                0 <= k < qtd ==> {
                    let a = #[trigger] agents@[k];
                    &&& a.wf()
                    &&& a@.config == config
                    &&& a@.state == AgentStates::SEARCHING
                    &&& a@.backpack == Item::empty()
                    &&& a@.history == seq![a@.pos]
                },
    {
        let mut agents: Vec<Agent> = Vec::new();
        for n in 0..qtd
            invariant
                config.valid(),
                agents@.len() == n,
                forall|k: int|
                    0 <= k < n ==> {
                        let a = #[trigger] agents@[k];
                        &&& a.wf()
                        &&& a@.config == config
                        &&& a@.state == AgentStates::SEARCHING
                        &&& a@.backpack == Item::empty()
                        &&& a@.history == seq![a@.pos]
                    },
        {
            let pos = Point { i: random_below(config.map_height), j: random_below(config.map_width) };
            agents.push(Agent::new(pos, config));
        }
        agents
    }

    /// One round: sees the window around the agent, decides with `draw` (a
    /// uniform draw in `0..=UNIT`), then moves. Returns the window with its
    /// centre cell as the decision left it, for the caller to write back.
    pub fn update_agent_with(&mut self, grid: &Grid, draw: u64) -> (w: Vec<Vec<Item>>)
        requires
            old(self).wf(),
            grid.wf(),
            grid.spec_height() == old(self)@.config.map_height,
            grid.spec_width() == old(self)@.config.map_width,
        ensures
            final(self).wf(),
            ({
                let r = old(self)@.config.vision_radius as nat;
                let seen = window_at(
                    grid@,
                    old(self)@.pos,
                    r,
                    grid.spec_height() as nat,
                    grid.spec_width() as nat,
                );
                let (state, backpack, c) = old(self)@.after_decision(seen, draw as nat);
                &&& centre(seen, r) == grid.at(old(self)@.pos)
                &&& final(self)@.state == state
                &&& final(self)@.backpack == backpack
                &&& matrix(&w) == set_cell(seen, r as int, r as int, c)
                &&& is_window(matrix(&w), r)
            }),
            is_move(
                old(self)@.pos,
                final(self)@.pos,
                old(self)@.config.map_height as nat,
                old(self)@.config.map_width as nat,
            ),
            final(self)@.history == record(
                old(self)@.history,
                final(self)@.pos,
                old(self)@.config.queue_size as nat,
            ),
            final(self)@.config == old(self)@.config,
    {
        let mut window = self.see_map(grid);
        self.decide(&mut window, draw);
        self.move_agent();
        window
    }

    /// One round with a fresh uniform draw; see `update_agent_with`.
    pub fn update_agent(&mut self, grid: &Grid) -> (w: Vec<Vec<Item>>)
        requires
            old(self).wf(),
            grid.wf(),
            grid.spec_height() == old(self)@.config.map_height,
            grid.spec_width() == old(self)@.config.map_width,
        ensures
            final(self).wf(),
            exists|draw: nat|
                draw <= UNIT && #[trigger] old(self)@.after_decision(old(self)@.seen(grid@), draw)
                    == (final(self)@.state, final(self)@.backpack, centre(
                    matrix(&w),
                    old(self)@.config.vision_radius as nat,
                )) && matrix(&w) == set_cell(
                    old(self)@.seen(grid@),
                    old(self)@.config.vision_radius as int,
                    old(self)@.config.vision_radius as int,
                    centre(matrix(&w), old(self)@.config.vision_radius as nat),
                ),
            is_move(
                old(self)@.pos,
                final(self)@.pos,
                old(self)@.config.map_height as nat,
                old(self)@.config.map_width as nat,
            ),
            final(self)@.history == record(
                old(self)@.history,
                final(self)@.pos,
                old(self)@.config.queue_size as nat,
            ),
            final(self)@.config == old(self)@.config,
    {
        let draw = random_below(UNIT as usize + 1) as u64;
        let w = self.update_agent_with(grid, draw);
        proof {
            let r = old(self)@.config.vision_radius as int;
            let seen = old(self)@.seen(grid@);
            assert(set_cell(seen, r, r, old(self)@.after_decision(seen, draw as nat).2)[r][r]
                == old(self)@.after_decision(seen, draw as nat).2);
            assert(old(self)@.after_decision(seen, draw as nat) == (self@.state, self@.backpack, centre(
                matrix(&w),
                r as nat,
            )));
        }
        w
    }

    /// Takes this round's decision from the window around the agent and a
    /// uniform draw in `0..=UNIT`: a searching agent may pick up the item
    /// under it, a carrying or finishing one may drop its item on an empty
    /// centre cell. The window's centre cell is updated to match.
    pub fn decide(&mut self, window: &mut Vec<Vec<Item>>, draw: u64)
        requires
            old(self).wf(),
            is_window(matrix(old(window)), old(self)@.config.vision_radius as nat),
        ensures
            final(self).wf(),
            is_window(matrix(final(window)), old(self)@.config.vision_radius as nat),
            final(self)@.pos == old(self)@.pos,
            final(self)@.history == old(self)@.history,
            final(self)@.config == old(self)@.config,
            ({
                let r = old(self)@.config.vision_radius as int;
                let w = matrix(old(window));
                let (state, backpack, c) = old(self)@.after_decision(w, draw as nat);
                &&& final(self)@.state == state
                &&& final(self)@.backpack == backpack
                &&& matrix(final(window)) == set_cell(w, r, r, c)
            }),
    {
        let r = self.config.vision_radius;
        let ghost w0 = matrix(window);
        assert(w0[r as int] == window@[r as int]@);
        let c = window[r][r];
        assert(w0[r as int].update(r as int, c) =~= w0[r as int]);
        assert(set_cell(w0, r as int, r as int, c) =~= w0);
        match self.state {
            AgentStates::SEARCHING => {
                if c.is_empty() {
                    return;
                }
                let d = get_density(window, r, c, self.config.alpha);
                if pickup_ok(draw, d, self.config.k_pick) {
                    self.backpack = c;
                    window[r][r] = Item::clone_empty();
                    self.state = AgentStates::CARRYING;
                    assert(matrix(window) =~= set_cell(w0, r as int, r as int, Item::empty()));
                }
            },
            AgentStates::CARRYING | AgentStates::FINISHING => {
                if !c.is_empty() {
                    return;
                }
                let d = get_density(window, r, self.backpack, self.config.alpha);
                if drop_ok(draw, d, self.config.k_drop) {
                    window[r][r] = self.backpack;
                    assert(matrix(window) =~= set_cell(w0, r as int, r as int, old(self)@.backpack));
                    self.backpack = Item::clone_empty();
                    self.state = if self.state == AgentStates::CARRYING {
                        AgentStates::SEARCHING
                    } else {
                        AgentStates::DONE
                    };
                }
            },
            AgentStates::DONE => {},
        }
    }
}

/// A decision only moves an item between the centre cell and the
/// backpack: together they hold the same items before and after, and the
/// backpack is still empty exactly in the states that carry nothing.
pub proof fn lemma_decision_conserves(a: AgentView, w: Seq<Seq<Item>>, draw: nat)
    requires
        a.backpack.is_empty() <==> !a.state.carries(),
    ensures
        ({
            let (state, backpack, c) = a.after_decision(w, draw);
            &&& held(c).add(held(backpack)) == held(centre(w, a.config.vision_radius as nat)).add(
                held(a.backpack),
            )
            &&& (backpack.is_empty() <==> !state.carries())
        }),
{
    let (state, backpack, c) = a.after_decision(w, draw);
    let c0 = centre(w, a.config.vision_radius as nat);
    assert(held(c).add(held(backpack)) =~= held(c0).add(held(a.backpack)));
}

/// A finishing agent standing on an empty cell drops its item on a zero
/// draw, whatever the density: a drain always has a way to progress.
pub proof fn lemma_zero_draw_drops(a: AgentView, w: Seq<Seq<Item>>)
    requires
        a.state == AgentStates::FINISHING,
        centre(w, a.config.vision_radius as nat).is_empty(),
    ensures
        a.after_decision(w, 0).0 == AgentStates::DONE,
        a.after_decision(w, 0).1 == Item::empty(),
{
    let d = local_density(w, a.config.vision_radius as nat, a.backpack, a.config.alpha as nat);
    let k = a.config.k_drop as nat;
    assert(0 * ((k + d) * (k + d)) <= UNIT * (d * d)) by (nonlinear_arith);
}

/// Position `c` moved by `step - 1` on a ring of `n` positions.
pub open spec fn ring_step_spec(c: nat, step: int, n: nat) -> nat {
    if step == 0 {
        ring_prev(c, n)
    } else if step == 1 {
        c
    } else {
        ring_next(c, n)
    }
}

/// The `u`-th of the nine cells around and including `pos`, row by row.
pub open spec fn step_point(pos: Point, u: int, h: nat, w: nat) -> Point {
    Point {
        i: ring_step_spec(pos.i as nat, u / 3, h) as usize,
        j: ring_step_spec(pos.j as nat, u % 3, w) as usize,
    }
}

/// Position `c` moved by `step - 1` (`step` in `0..3`) on a ring of `n`.
fn ring_step(c: usize, step: usize, n: usize) -> (r: usize)
    requires
        c < n,
        step < 3,
    ensures
        r < n,
        r == ring_step_spec(c as nat, step as int, n as nat),
{
    if step == 0 {
        if c == 0 {
            n - 1
        } else {
            c - 1
        }
    } else if step == 1 {
        c
    } else if c + 1 == n {
        0
    } else {
        c + 1
    }
}

/// Whether `p` occurs in `v`.
fn contains_point(v: &Vec<Point>, p: Point) -> (b: bool)
    ensures
        b == v@.contains(p),
{
    for k in 0..v.len()
        invariant
            forall|l: int| 0 <= l < k ==> v@[l] != p,
    {
        if v[k] == p {
            return true;
        }
    }
    false
}

/// Whether `p` occurs in `v`.
fn history_contains(v: &VecDeque<Point>, p: Point) -> (b: bool)
    ensures
        b == v@.contains(p),
{
    for k in 0..v.len()
        invariant
            forall|l: int| 0 <= l < k ==> v@[l] != p,
    {
        if v[k] == p {
            return true;
        }
    }
    false
}

/// Whether `draw` accepts a pick-up at density `d` with constant `k`.
fn pickup_ok(draw: u64, d: u64, k: u64) -> (b: bool)
    requires
        d <= UNIT,
        k <= MAX_K,
    ensures
        b == pickup_accepted(draw as nat, d as nat, k as nat),
{
    let s: u128 = k as u128 + d as u128;
    assert(s * s <= 0x1000_0000_0000_0000) by (nonlinear_arith)
        requires
            s <= 0x4000_0000,
    ;
    let s2: u128 = s * s;
    assert(draw * s2 <= 0xffff_ffff_ffff_ffff * 0x1000_0000_0000_0000) by (nonlinear_arith)
        requires
            s2 <= 0x1000_0000_0000_0000,
            draw <= 0xffff_ffff_ffff_ffff,
    ;
    assert(k * k <= 0x1000_0000_0000_0000) by (nonlinear_arith)
        requires
            k <= 0x4000_0000,
    ;
    let k2: u128 = k as u128 * k as u128;
    assert(UNIT * k2 <= 0x10_0000 * 0x1000_0000_0000_0000) by (nonlinear_arith)
        requires
            k2 <= 0x1000_0000_0000_0000,
    ;
    draw as u128 * s2 <= UNIT as u128 * k2
}

/// Whether `draw` accepts a drop at density `d` with constant `k`.
fn drop_ok(draw: u64, d: u64, k: u64) -> (b: bool)
    requires
        d <= UNIT,
        k <= MAX_K,
    ensures
        b == drop_accepted(draw as nat, d as nat, k as nat),
{
    let s: u128 = k as u128 + d as u128;
    assert(s * s <= 0x1000_0000_0000_0000) by (nonlinear_arith)
        requires
            s <= 0x4000_0000,
    ;
    let s2: u128 = s * s;
    assert(draw * s2 <= 0xffff_ffff_ffff_ffff * 0x1000_0000_0000_0000) by (nonlinear_arith)
        requires
            s2 <= 0x1000_0000_0000_0000,
            draw <= 0xffff_ffff_ffff_ffff,
    ;
    assert(d * d <= 0x1000_0000_0000_0000) by (nonlinear_arith)
        requires
            d <= 0x4000_0000,
    ;
    let d2: u128 = d as u128 * d as u128;
    assert(UNIT * d2 <= 0x10_0000 * 0x1000_0000_0000_0000) by (nonlinear_arith)
        requires
            d2 <= 0x1000_0000_0000_0000,
    ;
    draw as u128 * s2 <= UNIT as u128 * d2
}

} // verus!
