use hyperlife::rules::LifeRules;
use hyperlife::sim::{Cell, LifeSimulator};

#[test]
fn new_grid_is_all_dead() {
    let game = LifeSimulator::new(LifeRules::BasicRules, 2, 4);
    for index in 0..16 {
        assert_eq!(game.get_cell(index), Cell::Dead);
    }
}

#[test]
fn cell_from_bool() {
    assert_eq!(Cell::from(true), Cell::Alive);
    assert_eq!(Cell::from(false), Cell::Dead);
}

#[test]
fn mut_cell_writes_one_cell() {
    let mut game = LifeSimulator::new(LifeRules::BasicRules, 2, 4);
    *game.mut_cell(5) = Cell::Alive;
    for index in 0..16 {
        let expected = if index == 5 { Cell::Alive } else { Cell::Dead };
        assert_eq!(game.get_cell(index), expected);
    }
}

#[test]
fn basic_thresholds_by_dimension() {
    // dim 1: n = 2 -> min floor(2/4)=0, breed = max = floor(3/3) = 1
    let d1 = LifeSimulator::new(LifeRules::BasicRules, 1, 5);
    assert_eq!(d1.min_neighbors(), 0);
    assert_eq!(d1.min_breed_neighbors(), 1);
    assert_eq!(d1.max_neighbors(), 1);
    // dim 2: n = 8 -> min 2, breed = max = 3
    let d2 = LifeSimulator::new(LifeRules::BasicRules, 2, 5);
    assert_eq!(d2.min_neighbors(), 2);
    assert_eq!(d2.min_breed_neighbors(), 3);
    assert_eq!(d2.max_neighbors(), 3);
    // dim 3: n = 26 -> min 6, breed = max = 9
    let d3 = LifeSimulator::new(LifeRules::BasicRules, 3, 5);
    assert_eq!(d3.min_neighbors(), 6);
    assert_eq!(d3.min_breed_neighbors(), 9);
    assert_eq!(d3.max_neighbors(), 9);
    assert!(d1.min_neighbors() <= d1.max_neighbors());
    assert!(d2.min_neighbors() <= d2.max_neighbors());
    assert!(d3.min_neighbors() <= d3.max_neighbors());
}

#[test]
fn percentage_thresholds_by_dimension() {
    // dim 1: n = 2 -> min 0, breed ceil(0.6875) = 1, max floor(0.8125) = 0
    let d1 = LifeSimulator::new(LifeRules::PercentageRules, 1, 5);
    assert_eq!(d1.min_neighbors(), 0);
    assert_eq!(d1.min_breed_neighbors(), 1);
    assert_eq!(d1.max_neighbors(), 0);
    // dim 2: n = 8 -> min 2, breed ceil(2.75) = 3, max floor(3.25) = 3
    let d2 = LifeSimulator::new(LifeRules::PercentageRules, 2, 5);
    assert_eq!(d2.min_neighbors(), 2);
    assert_eq!(d2.min_breed_neighbors(), 3);
    assert_eq!(d2.max_neighbors(), 3);
    // dim 3: n = 26 -> min 6, breed ceil(8.9375) = 9, max floor(10.5625) = 10
    let d3 = LifeSimulator::new(LifeRules::PercentageRules, 3, 5);
    assert_eq!(d3.min_neighbors(), 6);
    assert_eq!(d3.min_breed_neighbors(), 9);
    assert_eq!(d3.max_neighbors(), 10);
    assert!(d1.min_neighbors() <= d1.max_neighbors());
    assert!(d2.min_neighbors() <= d2.max_neighbors());
    assert!(d3.min_neighbors() <= d3.max_neighbors());
}

#[test]
fn interior_cell_has_full_neighborhood() {
    // center of a 3x3 grid: all 8 distinct neighbors, ascending
    // candidate order
    let game = LifeSimulator::new(LifeRules::BasicRules, 2, 3);
    let center = game.coords_to_index(&vec![1, 1]);
    let neighbors = game.get_neighbor_indices(center);
    assert_eq!(neighbors, vec![3, 5, 1, 0, 2, 7, 6, 8]);
    let mut sorted = neighbors.clone();
    sorted.sort();
    sorted.dedup();
    assert_eq!(sorted.len(), 8);
    for n in sorted {
        assert!(n < 9);
        assert_ne!(n, center);
    }
}

#[test]
fn corner_cell_has_fewer_neighbors() {
    let game = LifeSimulator::new(LifeRules::BasicRules, 2, 3);
    let corner = game.coords_to_index(&vec![0, 0]);
    let neighbors = game.get_neighbor_indices(corner);
    assert_eq!(neighbors, vec![1, 3, 4]);
}

#[test]
fn three_dimensional_interior_count() {
    // center of a 3x3x3 grid: 3^3 - 1 = 26 distinct neighbors
    let game = LifeSimulator::new(LifeRules::BasicRules, 3, 3);
    let center = game.coords_to_index(&vec![1, 1, 1]);
    let mut neighbors = game.get_neighbor_indices(center);
    neighbors.sort();
    neighbors.dedup();
    assert_eq!(neighbors.len(), 26);
    for n in neighbors {
        assert!(n < 27);
        assert_ne!(n, center);
    }
}

#[test]
fn origin_corner_never_wraps_around() {
    // in a 4x4 grid the cell at (0, 0) must not list the far corner
    // (3, 3), nor any coordinate outside {0, 1}
    let game = LifeSimulator::new(LifeRules::BasicRules, 2, 4);
    let origin = game.coords_to_index(&vec![0, 0]);
    let far = game.coords_to_index(&vec![3, 3]);
    let neighbors = game.get_neighbor_indices(origin);
    assert_eq!(neighbors, vec![1, 4, 5]);
    for n in neighbors {
        assert_ne!(n, far);
        let coords = game.index_to_coords(n);
        assert!(coords[0] <= 1);
        assert!(coords[1] <= 1);
    }
}

#[test]
fn one_dimensional_scenario() {
    // 1D, size 5, Basic: n = 2, min 0, breed = max = 1.
    // [Dead, Alive, Dead, Dead, Dead] steps to
    // [Alive, Alive, Alive, Dead, Dead]: cells 0 and 2 breed from their
    // single alive neighbor, cell 1 sits in the survive zone and keeps
    // its state, cells 3 and 4 keep Dead.
    let mut game = LifeSimulator::new(LifeRules::BasicRules, 1, 5);
    *game.mut_cell(1) = Cell::Alive;
    game.step();
    assert_eq!(game.get_cell(0), Cell::Alive);
    assert_eq!(game.get_cell(1), Cell::Alive);
    assert_eq!(game.get_cell(2), Cell::Alive);
    assert_eq!(game.get_cell(3), Cell::Dead);
    assert_eq!(game.get_cell(4), Cell::Dead);
}

#[test]
fn step_is_deterministic() {
    let mut game = LifeSimulator::new(LifeRules::PercentageRules, 2, 5);
    for index in [0, 3, 6, 7, 11, 12, 13, 18, 24] {
        *game.mut_cell(index) = Cell::Alive;
    }
    let mut copy = game.clone();
    game.step();
    copy.step();
    for index in 0..25 {
        assert_eq!(game.get_cell(index), copy.get_cell(index));
    }
}

#[test]
fn step_twice_from_clones_agrees() {
    let mut game = LifeSimulator::new(LifeRules::BasicRules, 2, 6);
    for index in [1, 7, 8, 13, 14, 20, 22, 30] {
        *game.mut_cell(index) = Cell::Alive;
    }
    let mut copy = game.clone();
    game.step();
    game.step();
    copy.step();
    copy.step();
    for index in 0..36 {
        assert_eq!(game.get_cell(index), copy.get_cell(index));
    }
}

#[test]
fn overcrowded_cell_dies() {
    // 2D Basic: max is 3, so a live cell with 4 alive neighbors dies
    let mut game = LifeSimulator::new(LifeRules::BasicRules, 2, 3);
    let center = game.coords_to_index(&vec![1, 1]);
    *game.mut_cell(center) = Cell::Alive;
    for coords in [[0, 0], [2, 0], [0, 2], [2, 2]] {
        let index = game.coords_to_index(&vec![coords[0], coords[1]]);
        *game.mut_cell(index) = Cell::Alive;
    }
    game.step();
    assert_eq!(game.get_cell(center), Cell::Dead);
}

#[test]
fn lonely_cell_dies() {
    // 2D Basic: min is 2, so a live cell with no alive neighbor dies
    let mut game = LifeSimulator::new(LifeRules::BasicRules, 2, 4);
    let index = game.coords_to_index(&vec![1, 1]);
    *game.mut_cell(index) = Cell::Alive;
    game.step();
    assert_eq!(game.get_cell(index), Cell::Dead);
}

#[test]
fn blinker_oscillates() {
    // 2D Basic is the classic rule (min 2, breed 3, max 3): a vertical
    // triple flips to a horizontal one
    let mut game = LifeSimulator::new(LifeRules::BasicRules, 2, 5);
    for y in 1..4u32 {
        let index = game.coords_to_index(&vec![2, y]);
        *game.mut_cell(index) = Cell::Alive;
    }
    game.step();
    for x in 0..5u32 {
        for y in 0..5u32 {
            let index = game.coords_to_index(&vec![x, y]);
            let expected = if y == 2 && (1..4).contains(&x) {
                Cell::Alive
            } else {
                Cell::Dead
            };
            assert_eq!(game.get_cell(index), expected, "cell ({}, {})", x, y);
        }
    }
}

#[test]
fn three_dimensional_step_keeps_corners() {
    // 3x3x3, Basic (min 6, breed = max = 9), all cells alive: a corner
    // has 7 alive neighbors and sits in the survive zone, every other
    // cell is overcrowded and dies
    let mut game = LifeSimulator::new(LifeRules::BasicRules, 3, 3);
    for index in 0..27 {
        *game.mut_cell(index) = Cell::Alive;
    }
    game.step();
    for x in 0..3u32 {
        for y in 0..3u32 {
            for z in 0..3u32 {
                let corner = x != 1 && y != 1 && z != 1;
                let index = game.coords_to_index(&vec![x, y, z]);
                let expected = if corner { Cell::Alive } else { Cell::Dead };
                assert_eq!(game.get_cell(index), expected, "cell ({}, {}, {})", x, y, z);
            }
        }
    }
}

#[test]
fn randomize_keeps_shape_and_thresholds() {
    let mut game = LifeSimulator::new(LifeRules::PercentageRules, 2, 4);
    let min_n = game.min_neighbors();
    let min_b = game.min_breed_neighbors();
    let max_n = game.max_neighbors();
    game.randomize_grid();
    assert_eq!(game.min_neighbors(), min_n);
    assert_eq!(game.min_breed_neighbors(), min_b);
    assert_eq!(game.max_neighbors(), max_n);
    for index in 0..16 {
        let cell = game.get_cell(index);
        assert!(cell == Cell::Dead || cell == Cell::Alive);
    }
    game.step();
}
