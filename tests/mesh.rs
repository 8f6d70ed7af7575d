use std::collections::HashSet;

use game_of_life::game::Game;
use game_of_life::mesh::VALUES_PER_CELL;

#[test]
fn single_cell_quad_values() {
    let g = Game::init(10, vec![(2, 3)], 0).unwrap();
    let mut v = Vec::new();
    g.render(&mut v);
    assert_eq!(v, vec![2, 3, 0, 3, 4, 0, 3, 3, 0, 3, 4, 0, 2, 4, 0, 2, 3, 0]);
}

#[test]
fn last_cell_reaches_the_far_corner() {
    let g = Game::init(4, vec![(3, 3)], 0).unwrap();
    let mut v = vec![7, 7, 7];
    g.render(&mut v);
    assert_eq!(v, vec![3, 3, 0, 4, 4, 0, 4, 3, 0, 4, 4, 0, 3, 4, 0, 3, 3, 0]);
}

#[test]
fn mesh_has_eighteen_values_per_cell() {
    let mut g = Game::init(12, vec![(1, 0), (2, 1), (0, 2), (1, 2), (2, 2), (2, 2)], 0).unwrap();
    for _ in 0..3 {
        let mut v = Vec::new();
        g.render(&mut v);
        assert_eq!(v.len(), VALUES_PER_CELL * g.population());
        assert_eq!(v.len(), 18 * g.population());
        g.update();
    }
}

#[test]
fn mesh_quads_match_living_cells() {
    let seeds = vec![(0, 0), (5, 1), (2, 7)];
    let g = Game::init(8, seeds.clone(), 0).unwrap();
    let mut v = Vec::new();
    g.render(&mut v);
    let corners: HashSet<(u32, u32)> = v.chunks(18).map(|q| (q[0], q[1])).collect();
    let expected: HashSet<(u32, u32)> = seeds.into_iter().collect();
    assert_eq!(corners, expected);
    for q in v.chunks(18) {
        assert_eq!(q[3], q[0] + 1);
        assert_eq!(q[4], q[1] + 1);
        assert_eq!(q[2], 0);
    }
}

#[test]
fn empty_living_set_gives_empty_mesh() {
    let g = Game::init(3, vec![], 0).unwrap();
    let mut v = vec![1, 2, 3];
    g.render(&mut v);
    assert!(v.is_empty());
}

#[test]
fn render_twice_gives_the_same_values() {
    let g = Game::init(9, vec![(1, 1), (4, 2), (8, 8)], 0).unwrap();
    let mut a = Vec::new();
    let mut b = Vec::new();
    g.render(&mut a);
    g.render(&mut b);
    assert_eq!(a, b);
}
