use std::collections::HashSet;

use game_of_life::game::{Game, GameError};

fn cells(game: &Game) -> HashSet<(u32, u32)> {
    game.living_cells().into_iter().collect()
}

fn set_of(v: &[(u32, u32)]) -> HashSet<(u32, u32)> {
    v.iter().copied().collect()
}

fn seeded(size: u32, seeds: &[(u32, u32)]) -> Game {
    match Game::init(size, seeds.to_vec(), 0) {
        Ok(g) => g,
        Err(e) => panic!("init failed: {:?}", e),
    }
}

#[test]
fn zero_size_is_rejected() {
    assert!(matches!(Game::init(0, vec![], 0), Err(GameError::InvalidConfiguration)));
    assert!(matches!(Game::init(0, vec![(0, 0)], 50), Err(GameError::InvalidConfiguration)));
}

#[test]
fn seed_outside_grid_is_rejected() {
    assert!(matches!(Game::init(5, vec![(1, 1), (5, 0)], 0), Err(GameError::SeedOutOfBounds)));
    assert!(matches!(Game::init(5, vec![(0, 7)], 0), Err(GameError::SeedOutOfBounds)));
}

#[test]
fn seeds_without_fill_are_the_living_set() {
    let g = seeded(8, &[(1, 2), (3, 4), (1, 2)]);
    assert_eq!(g.size(), 8);
    assert_eq!(g.population(), 2);
    assert_eq!(cells(&g), set_of(&[(1, 2), (3, 4)]));
    assert!(g.is_alive((3, 4)));
    assert!(!g.is_alive((4, 3)));
    assert!(!g.is_alive((9, 9)));
}

#[test]
fn full_fill_makes_every_cell_alive() {
    let g = Game::init(6, vec![(2, 2)], 100).unwrap();
    assert_eq!(g.population(), 36);
}

#[test]
fn random_fill_adds_cells_and_keeps_seeds() {
    let g = Game::init(20, vec![(0, 0)], 99).unwrap();
    assert!(g.is_alive((0, 0)));
    assert!(g.population() > 1);
    assert!(g.population() <= 400);
}

#[test]
fn blinker_across_the_seam() {
    let mut g = seeded(5, &[(4, 2), (0, 2), (1, 2)]);
    g.update();
    assert_eq!(cells(&g), set_of(&[(0, 1), (0, 2), (0, 3)]));
    g.update();
    assert_eq!(cells(&g), set_of(&[(4, 2), (0, 2), (1, 2)]));
}

#[test]
fn left_neighbor_wraps_to_last_column() {
    // The dead cell (0, 2) has its three living neighbors in the last column.
    let mut g = seeded(5, &[(4, 1), (4, 2), (4, 3)]);
    g.update();
    assert!(g.is_alive((0, 2)));
    assert!(g.is_alive((3, 2)));
    assert!(g.is_alive((4, 2)));
    assert_eq!(g.population(), 3);
}

#[test]
fn block_is_a_still_life() {
    let block = [(2, 2), (3, 2), (2, 3), (3, 3)];
    let mut g = seeded(6, &block);
    g.update();
    assert_eq!(cells(&g), set_of(&block));
    g.update();
    assert_eq!(cells(&g), set_of(&block));
}

#[test]
fn isolated_cell_dies() {
    let mut g = seeded(7, &[(3, 3)]);
    g.update();
    assert_eq!(g.population(), 0);
}

#[test]
fn lone_cell_on_tiny_grids_dies() {
    for n in 1..4u32 {
        let mut g = seeded(n, &[(0, 0)]);
        g.update();
        assert_eq!(g.population(), 0);
    }
}

#[test]
fn dead_cell_with_three_neighbors_is_born() {
    let mut g = seeded(6, &[(1, 1), (2, 1), (1, 2)]);
    g.update();
    assert!(g.is_alive((2, 2)));
    assert_eq!(cells(&g), set_of(&[(1, 1), (2, 1), (1, 2), (2, 2)]));
}

#[test]
fn dead_cell_with_two_or_four_neighbors_stays_dead() {
    let mut two = seeded(8, &[(1, 1), (3, 1)]);
    two.update();
    assert!(!two.is_alive((2, 1)));
    assert!(!two.is_alive((2, 2)));

    let mut four = seeded(8, &[(1, 1), (3, 1), (1, 3), (3, 3)]);
    four.update();
    assert!(!four.is_alive((2, 2)));
}

#[test]
fn overcrowded_cell_dies() {
    let mut g = seeded(8, &[(3, 3), (2, 3), (4, 3), (3, 2), (3, 4)]);
    g.update();
    assert!(!g.is_alive((3, 3)));
}

#[test]
fn cell_with_two_or_three_neighbors_survives() {
    let mut two = seeded(8, &[(2, 3), (3, 3), (4, 3)]);
    two.update();
    assert!(two.is_alive((3, 3)));

    let mut three = seeded(8, &[(2, 2), (3, 3), (4, 3), (2, 4)]);
    three.update();
    assert!(three.is_alive((3, 3)));
}

#[test]
fn cell_with_one_neighbor_dies() {
    let mut g = seeded(8, &[(3, 3), (4, 3)]);
    g.update();
    assert!(!g.is_alive((3, 3)));
    assert_eq!(g.population(), 0);
}

#[test]
fn glider_moves_diagonally_every_four_generations() {
    let glider = [(1, 0), (2, 1), (0, 2), (1, 2), (2, 2)];
    let mut g = seeded(10, &glider);
    for _ in 0..4 {
        g.update();
    }
    let moved: Vec<(u32, u32)> = glider.iter().map(|&(x, y)| (x + 1, y + 1)).collect();
    assert_eq!(cells(&g), set_of(&moved));
}

#[test]
fn glider_wraps_around_the_torus() {
    let glider = [(1, 0), (2, 1), (0, 2), (1, 2), (2, 2)];
    let mut g = seeded(6, &glider);
    for _ in 0..24 {
        g.update();
    }
    assert_eq!(cells(&g), set_of(&glider));
}

#[test]
fn fill_uses_each_cells_draw() {
    // Draw of (x, y) sits at index x * 2 + y.
    let mut g = seeded(2, &[(1, 1)]);
    g.fill(&vec![5, 70, 10, 99], 50);
    assert_eq!(cells(&g), set_of(&[(0, 0), (1, 0), (1, 1)]));
}

#[test]
fn fill_with_zero_percent_adds_nothing() {
    let mut g = seeded(3, &[(2, 0)]);
    g.fill(&vec![0; 9], 0);
    assert_eq!(cells(&g), set_of(&[(2, 0)]));
}

#[test]
fn fill_keeps_cells_already_alive() {
    let mut g = seeded(3, &[(0, 1), (2, 2)]);
    g.fill(&vec![99, 99, 99, 1, 99, 99, 99, 99, 99], 2);
    assert_eq!(cells(&g), set_of(&[(0, 1), (2, 2), (1, 0)]));
}
