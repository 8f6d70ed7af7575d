//! Seed patterns written as text: each row is a line, and a `*` in column
//! `j` of row `i` marks the living cell `(i, j)`; every other character is a
//! dead cell.

use vstd::prelude::*;

verus! {

/// Row `i` of `rows` has a `*` in column `j`.
pub open spec fn star_at(rows: Seq<Vec<char>>, i: int, j: int) -> bool {
    &&& 0 <= i < rows.len()
    &&& 0 <= j < rows[i]@.len()
    &&& rows[i]@[j] == '*'
}

/// `(i, j)` precedes `(a, b)` in row-major order.
pub open spec fn before(i: int, j: int, a: int, b: int) -> bool {
    i < a || (i == a && j < b)
}

/// The positions `(row, column)` of the `*` characters of `rows`, each once,
/// in row-major order.
pub fn pattern_cells(rows: &Vec<Vec<char>>) -> (r: Vec<(usize, usize)>)
    ensures
        r@.no_duplicates(),
        forall|k: int, m: int|
            0 <= k < m < r@.len() ==> before(
                (#[trigger] r@[k]).0 as int,
                r@[k].1 as int,
                (#[trigger] r@[m]).0 as int,
                r@[m].1 as int,
            ),
        forall|k: int| 0 <= k < r@.len() ==> star_at(rows@, (#[trigger] r@[k]).0 as int, r@[k].1 as int),
        forall|i: int, j: int| #[trigger] star_at(rows@, i, j) ==> r@.contains((i as usize, j as usize)),
{
    let mut out: Vec<(usize, usize)> = Vec::new();
    let mut i: usize = 0;
    while i < rows.len()
        invariant
            i <= rows@.len(),
            out@.no_duplicates(),
            forall|k: int, m: int|
                0 <= k < m < out@.len() ==> before(
                    (#[trigger] out@[k]).0 as int,
                    out@[k].1 as int,
                    (#[trigger] out@[m]).0 as int,
                    out@[m].1 as int,
                ),
            forall|k: int|
                0 <= k < out@.len() ==> star_at(rows@, (#[trigger] out@[k]).0 as int, out@[k].1 as int)
                    && before(out@[k].0 as int, out@[k].1 as int, i as int, 0),
            forall|a: int, b: int|
                #[trigger] star_at(rows@, a, b) && before(a, b, i as int, 0) ==> out@.contains(
                    (a as usize, b as usize),
                ),
        decreases rows@.len() - i,
    {
        let row = &rows[i];
        let mut j: usize = 0;
        while j < row.len()
            invariant
                i < rows@.len(),
                row@ == rows@[i as int]@,
                j <= row@.len(),
                out@.no_duplicates(),
                forall|k: int, m: int|
                    0 <= k < m < out@.len() ==> before(
                        (#[trigger] out@[k]).0 as int,
                        out@[k].1 as int,
                        (#[trigger] out@[m]).0 as int,
                        out@[m].1 as int,
                    ),
                forall|k: int|
                    0 <= k < out@.len() ==> star_at(rows@, (#[trigger] out@[k]).0 as int, out@[k].1 as int)
                        && before(out@[k].0 as int, out@[k].1 as int, i as int, j as int),
                forall|a: int, b: int|
                    #[trigger] star_at(rows@, a, b) && before(a, b, i as int, j as int) ==> out@.contains(
                        (a as usize, b as usize),
                    ),
            decreases row@.len() - j,
        {
            if row[j] == '*' {
                let ghost prev = out@;
                out.push((i, j));
                assert forall|a: int, b: int|
                    #[trigger] star_at(rows@, a, b) && before(a, b, i as int, j + 1) implies out@.contains(
                        (a as usize, b as usize),
                    ) by {
                    if before(a, b, i as int, j as int) {
                        let k = choose|k: int| 0 <= k < prev.len() && prev[k] == (a as usize, b as usize);
                        assert(out@[k] == prev[k]);
                    } else {
                        assert(out@[prev.len() as int] == (i, j));
                    }
                }
                assert forall|k: int, m: int|
                    0 <= k < m < out@.len() implies before(
                        (#[trigger] out@[k]).0 as int,
                        out@[k].1 as int,
                        (#[trigger] out@[m]).0 as int,
                        out@[m].1 as int,
                    ) by {
                    if m < prev.len() {
                        assert(out@[k] == prev[k] && out@[m] == prev[m]);
                    } else {
                        assert(out@[k] == prev[k]);
                        assert(before(prev[k].0 as int, prev[k].1 as int, i as int, j as int));
                    }
                }
                assert forall|k: int, m: int|
                    0 <= k < out@.len() && 0 <= m < out@.len() && k != m implies out@[k] != out@[m] by {
                    if k < prev.len() && m < prev.len() {
                        assert(prev[k] != prev[m]);
                    } else if k < prev.len() {
                        assert(before(prev[k].0 as int, prev[k].1 as int, i as int, j as int));
                    } else {
                        assert(before(prev[m].0 as int, prev[m].1 as int, i as int, j as int));
                    }
                }
            } else {
                assert forall|a: int, b: int|
                    #[trigger] star_at(rows@, a, b) && before(a, b, i as int, j + 1) implies out@.contains(
                        (a as usize, b as usize),
                    ) by {
                    if !before(a, b, i as int, j as int) {
                        assert(a == i && b == j);
                    }
                }
            }
            j = j + 1;
        }
        assert forall|a: int, b: int|
            #[trigger] star_at(rows@, a, b) && before(a, b, i + 1, 0) implies out@.contains(
                (a as usize, b as usize),
            ) by {
            if !before(a, b, i as int, j as int) {
                assert(a == i && b >= j);
            }
        }
        i = i + 1;
    }
    out
}

} // verus!
