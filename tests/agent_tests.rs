use ant_cluster::{get_density, Agent, AgentConfig, AgentStates, Grid, Item, Point, UNIT};

fn item(x: i32, y: i32, label: u8) -> Item {
    Item { x, y, label }
}

fn config(h: usize, w: usize) -> AgentConfig {
    AgentConfig {
        vision_radius: 1,
        map_height: h,
        map_width: w,
        queue_size: 8,
        alpha: 6,
        k_pick: 250_000,
        k_drop: 200_000,
    }
}

fn empty_window() -> Vec<Vec<Item>> {
    vec![vec![Item::clone_empty(); 3]; 3]
}

fn adjacent(a: usize, b: usize, n: usize) -> bool {
    b == a || b == (a + 1) % n || b == (a + n - 1) % n
}

#[test]
fn distance_is_euclidean_rounded_down() {
    assert_eq!(item(0, 0, 1).get_distance(&item(3, 4, 1)), 5);
    assert_eq!(item(0, 0, 1).get_distance(&item(1, 1, 1)), 1);
    assert_eq!(item(-3, 0, 1).get_distance(&item(0, 4, 1)), 5);
    assert_eq!(item(i32::MIN, i32::MIN, 1).get_distance(&item(i32::MAX, i32::MAX, 1)), 6_074_000_998);
    assert_eq!(item(7, 7, 1).get_distance(&item(7, 7, 2)), 0);
}

#[test]
fn empty_item_is_label_zero() {
    assert!(Item::clone_empty().is_empty());
    assert!(!item(0, 0, 1).is_empty());
    assert_eq!(Item::clone_empty(), item(0, 0, 0));
}

#[test]
fn density_of_one_identical_neighbour_is_one() {
    let mut w = empty_window();
    w[0][0] = item(2, 2, 1);
    assert_eq!(get_density(&w, 1, item(2, 2, 1), 6), UNIT);
}

#[test]
fn density_divides_by_square_of_neighbour_count() {
    let mut w = empty_window();
    w[0][1] = item(0, 0, 1);
    w[2][2] = item(3, 0, 1);
    // similarities 1 and 1/2 over 2 neighbours: 1.5 / 4
    assert_eq!(get_density(&w, 1, item(0, 0, 1), 6), 375_000);
}

#[test]
fn density_ignores_centre_and_far_items() {
    let mut w = empty_window();
    w[1][1] = item(0, 0, 1);
    w[0][0] = item(100, 0, 2);
    assert_eq!(get_density(&w, 1, item(0, 0, 1), 6), 0);
    // a far item still counts as a neighbour once something is similar
    w[2][0] = item(0, 3, 1);
    // similarity 1/2 over 2 neighbours: 0.5 / 4
    assert_eq!(get_density(&w, 1, item(0, 0, 1), 6), 125_000);
}

#[test]
fn density_stays_within_unit_for_a_crowded_window() {
    let mut w = vec![vec![item(1, 1, 1); 5]; 5];
    w[2][2] = Item::clone_empty();
    let d = get_density(&w, 2, item(1, 1, 1), 6);
    // 24 identical neighbours: 24 / 24^2
    assert_eq!(d, 41_666);
    assert!(d <= UNIT);
}

#[test]
fn searching_agent_picks_up_with_accepting_draw() {
    let mut a = Agent::new(Point { i: 1, j: 1 }, config(3, 3));
    let mut w = empty_window();
    w[1][1] = item(4, 4, 2);
    a.decide(&mut w, 0);
    assert_eq!(a.get_state(), AgentStates::CARRYING);
    assert_eq!(a.backpack(), item(4, 4, 2));
    assert!(w[1][1].is_empty());
}

#[test]
fn searching_agent_refuses_pickup_in_dense_cluster() {
    let mut a = Agent::new(Point { i: 1, j: 1 }, config(3, 3));
    let mut w = empty_window();
    w[1][1] = item(4, 4, 2);
    w[0][0] = item(4, 4, 2);
    // density 1: pick-up probability (0.25 / 1.25)^2 = 0.04
    a.decide(&mut w, 40_001);
    assert_eq!(a.get_state(), AgentStates::SEARCHING);
    assert_eq!(a.backpack(), Item::clone_empty());
    assert_eq!(w[1][1], item(4, 4, 2));
    a.decide(&mut w, 40_000);
    assert_eq!(a.get_state(), AgentStates::CARRYING);
}

#[test]
fn searching_agent_on_empty_cell_does_nothing() {
    let mut a = Agent::new(Point { i: 0, j: 0 }, config(3, 3));
    let mut w = empty_window();
    a.decide(&mut w, 0);
    assert_eq!(a.get_state(), AgentStates::SEARCHING);
    assert_eq!(w, empty_window());
}

fn carrying_agent(it: Item) -> Agent {
    let mut a = Agent::new(Point { i: 1, j: 1 }, config(3, 3));
    let mut w = empty_window();
    w[1][1] = it;
    a.decide(&mut w, 0);
    assert_eq!(a.get_state(), AgentStates::CARRYING);
    a
}

#[test]
fn carrying_agent_drops_near_similar_items() {
    let mut a = carrying_agent(item(1, 1, 3));
    let mut w = empty_window();
    w[2][1] = item(1, 1, 3);
    // density 1: drop probability (1 / 1.2)^2, about 0.694
    a.decide(&mut w, 694_445);
    assert_eq!(a.get_state(), AgentStates::CARRYING);
    a.decide(&mut w, 694_444);
    assert_eq!(a.get_state(), AgentStates::SEARCHING);
    assert_eq!(w[1][1], item(1, 1, 3));
    assert!(a.backpack().is_empty());
}

#[test]
fn carrying_agent_cannot_drop_on_occupied_cell() {
    let mut a = carrying_agent(item(1, 1, 3));
    let mut w = empty_window();
    w[1][1] = item(2, 2, 1);
    a.decide(&mut w, 0);
    assert_eq!(a.get_state(), AgentStates::CARRYING);
    assert_eq!(w[1][1], item(2, 2, 1));
    assert_eq!(a.backpack(), item(1, 1, 3));
}

#[test]
fn carrying_agent_alone_drops_only_on_zero_draw() {
    let mut a = carrying_agent(item(1, 1, 3));
    let mut w = empty_window();
    a.decide(&mut w, 1);
    assert_eq!(a.get_state(), AgentStates::CARRYING);
    a.decide(&mut w, 0);
    assert_eq!(a.get_state(), AgentStates::SEARCHING);
}

#[test]
fn finishing_agent_on_occupied_cell_stays_finishing() {
    let mut a = carrying_agent(item(1, 1, 3));
    a.finish();
    assert_eq!(a.get_state(), AgentStates::FINISHING);
    assert!(a.is_finishing());
    let mut w = empty_window();
    w[1][1] = item(8, 8, 2);
    a.decide(&mut w, 0);
    assert_eq!(a.get_state(), AgentStates::FINISHING);
    assert_eq!(a.backpack(), item(1, 1, 3));
    assert_eq!(w[1][1], item(8, 8, 2));
}

#[test]
fn finishing_agent_drop_makes_it_done() {
    let mut a = carrying_agent(item(1, 1, 3));
    a.finish();
    let mut w = empty_window();
    a.decide(&mut w, 0);
    assert_eq!(a.get_state(), AgentStates::DONE);
    assert_eq!(w[1][1], item(1, 1, 3));
    assert!(a.backpack().is_empty());
}

#[test]
fn finish_moves_each_state() {
    let mut s = Agent::new(Point { i: 0, j: 0 }, config(3, 3));
    s.finish();
    assert_eq!(s.get_state(), AgentStates::DONE);
    s.finish();
    assert_eq!(s.get_state(), AgentStates::DONE);
    let mut c = carrying_agent(item(1, 1, 1));
    c.finish();
    c.finish();
    assert_eq!(c.get_state(), AgentStates::FINISHING);
}

#[test]
fn done_agent_takes_no_decision() {
    let mut a = Agent::new(Point { i: 0, j: 0 }, config(3, 3));
    a.finish();
    let mut w = empty_window();
    w[1][1] = item(1, 1, 1);
    a.decide(&mut w, 0);
    assert_eq!(a.get_state(), AgentStates::DONE);
    assert_eq!(w[1][1], item(1, 1, 1));
}

#[test]
fn moves_are_to_a_different_adjacent_cell() {
    let (h, w) = (5, 4);
    let mut a = Agent::new(Point { i: 0, j: 3 }, config(h, w));
    for _ in 0..500 {
        let before = a.get_pos();
        a.move_agent();
        let after = a.get_pos();
        assert_ne!(before, after);
        assert!(after.i < h && after.j < w);
        assert!(adjacent(before.i, after.i, h));
        assert!(adjacent(before.j, after.j, w));
        let hist = a.history();
        assert!(hist.len() <= 8);
        assert_eq!(*hist.last().unwrap(), after);
    }
}

#[test]
fn history_keeps_newest_entries() {
    let mut a = Agent::new(Point { i: 2, j: 2 }, config(6, 6));
    assert_eq!(a.history(), vec![Point { i: 2, j: 2 }]);
    let mut seen = vec![Point { i: 2, j: 2 }];
    for _ in 0..20 {
        a.move_agent();
        seen.push(a.get_pos());
    }
    assert_eq!(a.history(), seen[seen.len() - 8..].to_vec());
}

#[test]
fn move_on_a_single_row_changes_column() {
    let mut a = Agent::new(Point { i: 0, j: 0 }, config(1, 2));
    for _ in 0..20 {
        let before = a.get_pos();
        a.move_agent();
        assert_eq!(a.get_pos().i, 0);
        assert_ne!(a.get_pos().j, before.j);
    }
}

#[test]
fn update_agent_returns_window_and_moves() {
    let mut g = Grid::new(4, 4);
    g.write_cell(Point { i: 2, j: 2 }, item(5, 5, 1));
    let mut a = Agent::new(Point { i: 2, j: 2 }, config(4, 4));
    let w = a.update_agent_with(&g, 0);
    assert_eq!(a.get_state(), AgentStates::CARRYING);
    assert_eq!(a.backpack(), item(5, 5, 1));
    assert!(w[1][1].is_empty());
    assert_ne!(a.get_pos(), Point { i: 2, j: 2 });
    // the grid itself is left to the caller
    assert_eq!(g.get_cell(Point { i: 2, j: 2 }), item(5, 5, 1));
}

#[test]
fn update_agent_with_random_draw_keeps_coupling() {
    let mut g = Grid::new(4, 4);
    g.write_cell(Point { i: 1, j: 1 }, item(5, 5, 1));
    let mut a = Agent::new(Point { i: 1, j: 1 }, config(4, 4));
    let w = a.update_agent(&g);
    let carried = a.get_state() == AgentStates::CARRYING;
    assert_eq!(carried, !a.backpack().is_empty());
    assert_eq!(carried, w[1][1].is_empty());
}

#[test]
fn create_agents_starts_searching_on_the_grid() {
    let agents = Agent::create_agents(config(7, 3), 12);
    assert_eq!(agents.len(), 12);
    for a in &agents {
        assert_eq!(a.get_state(), AgentStates::SEARCHING);
        assert!(a.backpack().is_empty());
        assert!(a.get_pos().i < 7 && a.get_pos().j < 3);
        assert_eq!(a.history(), vec![a.get_pos()]);
    }
}

#[test]
fn state_names() {
    assert_eq!(AgentStates::CARRYING.name(), "CARRYING");
    assert_eq!(AgentStates::SEARCHING.name(), "SEARCHING");
    assert_eq!(AgentStates::FINISHING.name(), "FINISHING");
    assert_eq!(AgentStates::DONE.name(), "DONE");
}
