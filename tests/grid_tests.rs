use ant_cluster::{Grid, Item, Point};

fn item(x: i32, y: i32, label: u8) -> Item {
    Item { x, y, label }
}

fn occupied(g: &Grid) -> usize {
    let mut n = 0;
    for i in 0..g.height() {
        for j in 0..g.width() {
            if !g.get_cell(Point { i, j }).is_empty() {
                n += 1;
            }
        }
    }
    n
}

#[test]
fn new_grid_is_empty() {
    let g = Grid::new(3, 4);
    assert_eq!(g.height(), 3);
    assert_eq!(g.width(), 4);
    assert_eq!(g.count_free(), 12);
    assert_eq!(occupied(&g), 0);
}

#[test]
fn write_then_read_cell() {
    let mut g = Grid::new(2, 2);
    g.write_cell(Point { i: 1, j: 0 }, item(5, 6, 2));
    assert_eq!(g.get_cell(Point { i: 1, j: 0 }), item(5, 6, 2));
    assert_eq!(g.count_free(), 3);
    g.write_cell(Point { i: 1, j: 0 }, Item::clone_empty());
    assert_eq!(g.count_free(), 4);
}

fn numbered(h: usize, w: usize) -> Grid {
    let mut g = Grid::new(h, w);
    for i in 0..h {
        for j in 0..w {
            g.write_cell(Point { i, j }, item(i as i32, j as i32, 1));
        }
    }
    g
}

#[test]
fn window_wraps_at_origin_corner() {
    let g = numbered(5, 7);
    let w = g.read_window(Point { i: 0, j: 0 }, 1);
    assert_eq!(w.len(), 3);
    assert_eq!(w[0].len(), 3);
    assert_eq!(w[0][0], item(4, 6, 1));
    assert_eq!(w[1][1], item(0, 0, 1));
    assert_eq!(w[2][2], item(1, 1, 1));
    assert_eq!(w[0][2], item(4, 1, 1));
}

#[test]
fn window_wraps_with_larger_radius() {
    let g = numbered(5, 7);
    let w = g.read_window(Point { i: 0, j: 0 }, 2);
    assert_eq!(w[0][0], item(3, 5, 1));
    let w = g.read_window(Point { i: 4, j: 6 }, 2);
    assert_eq!(w[4][4], item(1, 1, 1));
    assert_eq!(w[2][2], item(4, 6, 1));
}

#[test]
fn window_radius_beyond_grid_size_wraps_repeatedly() {
    let g = numbered(2, 3);
    let w = g.read_window(Point { i: 0, j: 0 }, 4);
    assert_eq!(w.len(), 9);
    // row 0 - 4 = -4, which is 0 mod 2; column 0 - 4 = -4, which is 2 mod 3
    assert_eq!(w[0][0], item(0, 2, 1));
    assert_eq!(w[4][4], item(0, 0, 1));
}

#[test]
fn scatter_places_every_item_once() {
    let mut g = Grid::new(10, 10);
    let items = vec![item(1, 1, 1), item(2, 2, 2), item(3, 3, 3), item(4, 4, 4), item(5, 5, 5)];
    g.scatter(&items);
    assert_eq!(occupied(&g), 5);
    assert_eq!(g.count_free(), 95);
    for it in &items {
        let mut found = 0;
        for i in 0..10 {
            for j in 0..10 {
                if g.get_cell(Point { i, j }) == *it {
                    found += 1;
                }
            }
        }
        assert_eq!(found, 1);
    }
}

#[test]
fn scatter_fills_a_full_grid() {
    let mut g = Grid::new(2, 2);
    let items = vec![item(1, 0, 1), item(2, 0, 1), item(3, 0, 2), item(4, 0, 2)];
    g.scatter(&items);
    assert_eq!(g.count_free(), 0);
}

#[test]
fn scatter_keeps_occupied_cells() {
    let mut g = Grid::new(3, 3);
    g.write_cell(Point { i: 1, j: 1 }, item(9, 9, 7));
    g.scatter(&vec![item(1, 1, 1); 8]);
    assert_eq!(g.get_cell(Point { i: 1, j: 1 }), item(9, 9, 7));
    assert_eq!(g.count_free(), 0);
}
