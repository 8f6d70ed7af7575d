use std::collections::HashSet;

use game_of_life::pattern::pattern_cells;

fn rows(lines: &[&str]) -> Vec<Vec<char>> {
    lines.iter().map(|l| l.chars().collect()).collect()
}

#[test]
fn stars_mark_living_cells_by_row_and_column() {
    let r = pattern_cells(&rows(&[".*.", "**", "", "..*"]));
    let got: HashSet<(usize, usize)> = r.iter().copied().collect();
    let want: HashSet<(usize, usize)> = [(0, 1), (1, 0), (1, 1), (3, 2)].into_iter().collect();
    assert_eq!(got, want);
    assert_eq!(r, vec![(0, 1), (1, 0), (1, 1), (3, 2)]);
}

#[test]
fn other_characters_are_dead() {
    assert!(pattern_cells(&rows(&["ab.o", "  x"])).is_empty());
    assert!(pattern_cells(&rows(&[])).is_empty());
}

#[test]
fn columns_count_characters_not_bytes() {
    let r = pattern_cells(&rows(&["é*"]));
    assert_eq!(r, vec![(0, 1)]);
}
