//! The mesh of a living set, on the integer lattice of cell corners.
//!
//! Corner `v` of an axis stands for the normalized device coordinate
//! `v * (2 / n) - 1`, so the lattice `[0, n]` spans the square `[-1, 1]`.

use vstd::prelude::*;

use crate::grid::Cell;

verus! {

/// Number of values drawn per cell: two triangles of three vertices, each
/// vertex with three components.
pub const VALUES_PER_CELL: usize = 18;

/// The two triangles that cover cell `c`, as eighteen lattice values: the
/// vertices `(x1, y1)`, `(x2, y2)`, `(x2, y1)`, then `(x2, y2)`, `(x1, y2)`,
/// `(x1, y1)`, each followed by a zero `z`, where `x2 = x1 + 1` and `y2 = y1 + 1`.
pub open spec fn quad(c: Cell) -> Seq<u32> {
    let x1 = c.0;
    let y1 = c.1;
    let x2 = (c.0 + 1) as u32;
    let y2 = (c.1 + 1) as u32;
    seq![x1, y1, 0, x2, y2, 0, x2, y1, 0, x2, y2, 0, x1, y2, 0, x1, y1, 0]
}

/// The quads of `cells`, one after another in the order of `cells`.
pub open spec fn mesh_of(cells: Seq<Cell>) -> Seq<u32>
    decreases cells.len(),
{
    if cells.len() == 0 {
        Seq::empty()
    } else {
        mesh_of(cells.drop_last()) + quad(cells.last())
    }
}

/// The mesh holds eighteen values per cell.
pub proof fn lemma_mesh_len(cells: Seq<Cell>)
    ensures
        mesh_of(cells).len() == 18 * cells.len(),
    decreases cells.len(),
{
    if cells.len() > 0 {
        lemma_mesh_len(cells.drop_last());
    }
}

/// The quad of the `i`th cell stands at values `18 * i` to `18 * i + 17`.
pub proof fn lemma_mesh_index(cells: Seq<Cell>, i: int)
    requires
        0 <= i < cells.len(),
    ensures
        mesh_of(cells).subrange(18 * i, 18 * i + 18) == quad(cells[i]),
    decreases cells.len(),
{
    lemma_mesh_len(cells.drop_last());
    if i < cells.len() - 1 {
        lemma_mesh_index(cells.drop_last(), i);
        lemma_mesh_len(cells.drop_last());
        assert(mesh_of(cells).subrange(18 * i, 18 * i + 18) =~= mesh_of(cells.drop_last()).subrange(
            18 * i,
            18 * i + 18,
        ));
    } else {
        assert(mesh_of(cells).subrange(18 * i, 18 * i + 18) =~= quad(cells.last()));
    }
}

} // verus!
