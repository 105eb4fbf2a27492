use ant_cluster::{Agent, AgentStates, Grid, Item, Point, Sim, SimConfig, SimState};

fn item(x: i32, y: i32, label: u8) -> Item {
    Item { x, y, label }
}

fn config(h: usize, w: usize, agents: usize, max_iters: usize) -> SimConfig {
    SimConfig {
        max_iters,
        mapa_height: h,
        mapa_width: w,
        qtd_agents: agents,
        agent_vision_radius: 1,
        queue_size: 8,
        alpha: 6,
        k_pick: 250_000,
        k_drop: 200_000,
    }
}

fn occupied(g: &Grid) -> usize {
    let mut n = 0;
    for i in 0..g.height() {
        for j in 0..g.width() {
            if !g.get_cell(Point { i, j }).is_empty() {
                n += 1;
            }
        }
    }
    n
}

fn carrying(sim: &Sim) -> usize {
    sim.agents().iter().filter(|a| !a.backpack().is_empty()).count()
}

fn check_round_boundary(sim: &Sim, total: usize) {
    assert_eq!(occupied(sim.grid()) + carrying(sim), total);
    for a in sim.agents() {
        let idle = matches!(a.get_state(), AgentStates::SEARCHING | AgentStates::DONE);
        assert_eq!(a.backpack().is_empty(), idle);
    }
}

#[test]
fn one_round_picks_up_the_item_under_the_agent() {
    let c = config(10, 10, 1, 100);
    let mut g = Grid::new(10, 10);
    let cells = [(0, 0), (2, 7), (5, 5), (8, 1), (9, 9)];
    for (k, (i, j)) in cells.iter().enumerate() {
        g.write_cell(Point { i: *i, j: *j }, item(k as i32, k as i32, 1));
    }
    let agent = Agent::new(Point { i: 5, j: 5 }, c.agent_config());
    let mut sim = Sim::from_parts(c, g, vec![agent]);
    sim.update_with(&vec![0]);
    let a = &sim.agents()[0];
    assert_eq!(a.get_state(), AgentStates::CARRYING);
    assert_eq!(a.backpack(), item(2, 2, 1));
    assert!(sim.grid().get_cell(Point { i: 5, j: 5 }).is_empty());
    assert_eq!(occupied(sim.grid()), 4);
    assert_eq!(sim.iteration(), 1);
    assert_eq!(sim.get_state(), SimState::RUNNING);
}

#[test]
fn finishing_agent_cannot_drop_on_an_occupied_cell() {
    // every cell holds an item, so wherever the agent moves its cell is taken
    let c = config(4, 4, 1, 1);
    let mut g = Grid::new(4, 4);
    for i in 0..4 {
        for j in 0..4 {
            g.write_cell(Point { i, j }, item(i as i32, j as i32, 1));
        }
    }
    let agent = Agent::new(Point { i: 1, j: 1 }, c.agent_config());
    let mut sim = Sim::from_parts(c, g, vec![agent]);
    sim.update_with(&vec![0]);
    assert_eq!(sim.get_state(), SimState::DRAINING);
    assert_eq!(sim.agents()[0].get_state(), AgentStates::FINISHING);
    let pos = sim.agents()[0].get_pos();
    assert_ne!(pos, Point { i: 1, j: 1 });
    let under = sim.grid().get_cell(pos);
    sim.update_with(&vec![0]);
    assert_eq!(sim.agents()[0].get_state(), AgentStates::FINISHING);
    assert_eq!(sim.agents()[0].backpack(), item(1, 1, 1));
    assert_eq!(sim.grid().get_cell(pos), under);
    assert_eq!(sim.get_state(), SimState::DRAINING);
    assert_eq!(sim.extra_iters(), 1);
    check_round_boundary(&sim, 16);
}

#[test]
fn created_run_holds_all_items() {
    let items: Vec<Item> = (0..30).map(|k| item(k, 2 * k, 1 + (k % 3) as u8)).collect();
    let sim = Sim::create(config(10, 10, 5, 50), &items);
    assert_eq!(sim.get_state(), SimState::RUNNING);
    assert_eq!(sim.agents().len(), 5);
    assert_eq!(occupied(sim.grid()), 30);
    assert_eq!(sim.grid().count_free(), 70);
    check_round_boundary(&sim, 30);
}

#[test]
fn rounds_conserve_items_and_coupling() {
    let items: Vec<Item> = (0..30).map(|k| item(k % 5, k % 7, 1 + (k % 3) as u8)).collect();
    let mut sim = Sim::create(config(10, 10, 5, 200), &items);
    for round in 0..200 {
        assert_eq!(sim.iteration(), round);
        sim.update();
        check_round_boundary(&sim, 30);
    }
    assert_eq!(sim.get_state(), SimState::DRAINING);
    for a in sim.agents() {
        assert!(matches!(a.get_state(), AgentStates::FINISHING | AgentStates::DONE));
    }
    for _ in 0..200 {
        let before: Vec<AgentStates> = sim.agents().iter().map(|a| a.get_state()).collect();
        sim.update();
        check_round_boundary(&sim, 30);
        for (b, a) in before.iter().zip(sim.agents()) {
            if *b == AgentStates::DONE {
                assert_eq!(a.get_state(), AgentStates::DONE);
            }
        }
    }
}

#[test]
fn searching_agents_are_done_at_once_and_the_run_completes() {
    let c = config(5, 5, 3, 1);
    let g = Grid::new(5, 5);
    let agents = vec![
        Agent::new(Point { i: 0, j: 0 }, c.agent_config()),
        Agent::new(Point { i: 2, j: 3 }, c.agent_config()),
        Agent::new(Point { i: 4, j: 4 }, c.agent_config()),
    ];
    let mut sim = Sim::from_parts(c, g, agents);
    sim.update_with(&vec![0, 0, 0]);
    assert_eq!(sim.get_state(), SimState::DRAINING);
    for a in sim.agents() {
        assert_eq!(a.get_state(), AgentStates::DONE);
    }
    sim.update_with(&vec![0, 0, 0]);
    assert_eq!(sim.get_state(), SimState::COMPLETE);
    assert_eq!(sim.extra_iters(), 0);
    sim.update();
    assert_eq!(sim.get_state(), SimState::COMPLETE);
}

#[test]
fn drain_ends_once_the_last_item_is_dropped() {
    let c = config(3, 3, 1, 1);
    let mut g = Grid::new(3, 3);
    g.write_cell(Point { i: 1, j: 1 }, item(0, 0, 1));
    let agent = Agent::new(Point { i: 1, j: 1 }, c.agent_config());
    let mut sim = Sim::from_parts(c, g, vec![agent]);
    sim.update_with(&vec![0]);
    assert_eq!(sim.agents()[0].get_state(), AgentStates::FINISHING);
    // the agent stands on an empty cell: a zero draw always drops
    sim.update_with(&vec![0]);
    assert_eq!(sim.agents()[0].get_state(), AgentStates::DONE);
    assert_eq!(sim.get_state(), SimState::DRAINING);
    assert_eq!(sim.extra_iters(), 1);
    assert_eq!(occupied(sim.grid()), 1);
    sim.update_with(&vec![0]);
    assert_eq!(sim.get_state(), SimState::COMPLETE);
    assert_eq!(sim.extra_iters(), 1);
}

#[test]
fn agents_step_in_index_order_on_a_shared_grid() {
    // both agents start on the only item; the first takes it, the second
    // then sees an empty cell
    let c = config(3, 3, 2, 10);
    let mut g = Grid::new(3, 3);
    g.write_cell(Point { i: 0, j: 0 }, item(1, 1, 1));
    let agents = vec![
        Agent::new(Point { i: 0, j: 0 }, c.agent_config()),
        Agent::new(Point { i: 0, j: 0 }, c.agent_config()),
    ];
    let mut sim = Sim::from_parts(c, g, agents);
    sim.update_with(&vec![0, 0]);
    assert_eq!(sim.agents()[0].get_state(), AgentStates::CARRYING);
    assert_eq!(sim.agents()[1].get_state(), AgentStates::SEARCHING);
    assert_eq!(occupied(sim.grid()), 0);
}

#[test]
fn done_agents_still_move_while_running() {
    let c = config(4, 4, 1, 10);
    let mut agent = Agent::new(Point { i: 2, j: 2 }, c.agent_config());
    agent.finish();
    assert_eq!(agent.get_state(), AgentStates::DONE);
    let mut sim = Sim::from_parts(c, Grid::new(4, 4), vec![agent]);
    sim.update();
    assert_ne!(sim.agents()[0].get_pos(), Point { i: 2, j: 2 });
    assert_eq!(sim.agents()[0].get_state(), AgentStates::DONE);
    assert_eq!(sim.get_state(), SimState::RUNNING);
}
