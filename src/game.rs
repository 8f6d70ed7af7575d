//! The simulation engine: the living set of an `n` by `n` torus, its
//! generation step, and the mesh that draws it.

use rand::Rng;
use std::collections::HashSet;
use vstd::prelude::*;

use crate::grid::{
    Cell, around, cell_key, in_grid, key_of, lemma_key_injective, lemma_wrap_inverse,
    neighbor_count, next_generation, within, wrap_next, wrap_prev,
};
use crate::mesh::{lemma_mesh_index, lemma_mesh_len, mesh_of, quad};

verus! {

broadcast use vstd::std_specs::hash::group_hash_axioms;

/// Why an engine could not be built.
#[derive(Debug, Clone, Copy, PartialEq, Eq, Structural)]
pub enum GameError {
    /// The grid size is zero.
    InvalidConfiguration,
    /// A seed cell lies outside the grid.
    SeedOutOfBounds,
}

/// Every seed lies in the grid.
pub open spec fn seeds_in_grid(n: u32, seeds: Seq<Cell>) -> bool {
    forall|i: int| 0 <= i < seeds.len() ==> in_grid(n, #[trigger] seeds[i])
}

/// Every cell of the `n` by `n` grid.
pub open spec fn full_grid(n: u32) -> Set<Cell> {
    Set::new(|c: Cell| in_grid(n, c))
}

/// Relies on rand's `Rng::gen_range` over the thread-local generator: a value
/// drawn from `[0, bound)`; it panics on an empty range, hence `bound > 0`.
#[verifier::external_body]
fn random_below(bound: u32) -> (r: u32)
    requires
        bound > 0,
    ensures
        r < bound,
{
    rand::thread_rng().gen_range(0..bound)
}

/// The index of cell `c`'s draw among the `n * n` draws of a fill.
pub open spec fn draw_index(n: u32, c: Cell) -> int {
    c.0 as int * n as int + c.1 as int
}

/// The cells of the grid whose draw is below `fill_percent`.
pub open spec fn drawn_cells(n: u32, draws: Seq<u32>, fill_percent: u32) -> Set<Cell> {
    Set::new(|c: Cell| in_grid(n, c) && draws[draw_index(n, c)] < fill_percent)
}

/// The cells of `drawn_cells` that come before `(i, j)` in row-major order.
spec fn drawn_before(n: u32, draws: Seq<u32>, fill_percent: u32, i: int, j: int) -> Set<Cell> {
    Set::new(
        |c: Cell|
            in_grid(n, c) && (c.0 < i || (c.0 == i && c.1 < j)) && draws[draw_index(n, c)]
                < fill_percent,
    )
}

/// A cell of the grid has its draw within the `n * n` draws.
proof fn lemma_cell_index(n: u32, c: Cell)
    requires
        in_grid(n, c),
    ensures
        0 <= draw_index(n, c) < n as int * n as int,
{
    let x = c.0 as int;
    let y = c.1 as int;
    let m = n as int;
    assert(0 <= x * m + y < m * m) by (nonlinear_arith)
        requires
            0 <= x < m,
            0 <= y < m,
    ;
}

/// One draw below 100 for each cell of an `n` by `n` grid.
fn random_draws(n: u32) -> (r: Vec<u32>)
    ensures
        r@.len() == n as int * n as int,
        forall|k: int| 0 <= k < r@.len() ==> #[trigger] r@[k] < 100,
{
    let mut draws: Vec<u32> = Vec::new();
    let mut i: u32 = 0;
    while i < n
        invariant
            i <= n,
            draws@.len() == i as int * n as int,
            forall|k: int| 0 <= k < draws@.len() ==> #[trigger] draws@[k] < 100,
        decreases n - i,
    {
        let mut j: u32 = 0;
        while j < n
            invariant
                i < n,
                j <= n,
                draws@.len() == i as int * n as int + j as int,
                forall|k: int| 0 <= k < draws@.len() ==> #[trigger] draws@[k] < 100,
            decreases n - j,
        {
            draws.push(random_below(100));
            j = j + 1;
        }
        assert(draws@.len() == (i + 1) as int * n as int) by (nonlinear_arith)
            requires
                draws@.len() == i as int * n as int + n as int,
        ;
        i = i + 1;
    }
    draws
}

/// A Game of Life on an `n` by `n` torus.
pub struct Game {
    size: u32,
    cells: Vec<Cell>,
    index: HashSet<u64>,
}

/// While building a generation: `out` lists, without repeats, exactly those
/// cells whose key is in `seen` and that live in the next generation, and
/// `out_index` holds their keys.
spec fn tracks(n: u32, live: Set<Cell>, seen: Set<u64>, out: Seq<Cell>, out_index: Set<u64>) -> bool {
    &&& out.no_duplicates()
    &&& forall|i: int|
        0 <= i < out.len() ==> {
            &&& in_grid(n, #[trigger] out[i])
            &&& seen.contains(key_of(out[i]))
            &&& next_generation(n, live).contains(out[i])
        }
    &&& forall|d: Cell| in_grid(n, d) ==> (out_index.contains(key_of(d)) <==> out.contains(d))
    &&& forall|d: Cell|
        in_grid(n, d) && seen.contains(key_of(d)) && #[trigger] next_generation(n, live).contains(d)
            ==> out.contains(d)
}

/// A cell that lives in the next generation is alive now or next to a living cell.
proof fn lemma_next_has_source(n: u32, live: Set<Cell>, d: Cell)
    requires
        within(n, live),
        in_grid(n, d),
        next_generation(n, live).contains(d),
    ensures
        exists|p: Cell| live.contains(p) && around(n, p, d),
{
    lemma_wrap_inverse(n, d.0);
    lemma_wrap_inverse(n, d.1);
    let l = wrap_prev(n, d.0);
    let r = wrap_next(n, d.0);
    let t = wrap_prev(n, d.1);
    let b = wrap_next(n, d.1);
    if live.contains(d) {
        assert(around(n, d, d));
    } else if live.contains((l, t)) {
        assert(around(n, (l, t), d));
    } else if live.contains((d.0, t)) {
        assert(around(n, (d.0, t), d));
    } else if live.contains((r, t)) {
        assert(around(n, (r, t), d));
    } else if live.contains((l, d.1)) {
        assert(around(n, (l, d.1), d));
    } else if live.contains((r, d.1)) {
        assert(around(n, (r, d.1), d));
    } else if live.contains((l, b)) {
        assert(around(n, (l, b), d));
    } else if live.contains((d.0, b)) {
        assert(around(n, (d.0, b), d));
    } else {
        assert(live.contains((r, b)));
        assert(around(n, (r, b), d));
    }
}

impl Game {
    /// The side length of the grid.
    pub closed spec fn dim(&self) -> u32 {
        self.size
    }

    /// The living set.
    pub closed spec fn living(&self) -> Set<Cell> {
        self.cells@.to_set()
    }

    /// The living cells in the order in which the mesh draws them.
    pub closed spec fn order(&self) -> Seq<Cell> {
        self.cells@
    }

    /// The engine's invariant: a positive size, every living cell in the
    /// grid and listed once, and the index holding exactly their keys.
    pub closed spec fn wf(&self) -> bool {
        &&& self.size > 0
        &&& self.cells@.no_duplicates()
        &&& forall|i: int| 0 <= i < self.cells@.len() ==> in_grid(self.size, #[trigger] self.cells@[i])
        &&& forall|d: Cell|
            in_grid(self.size, d) ==> (self.index@.contains(key_of(d)) <==> self.cells@.contains(d))
    }

    /// The living set lies in the grid and the draw order lists it once each.
    pub proof fn lemma_wf_facts(&self)
        requires
            self.wf(),
        ensures
            self.dim() > 0,
            within(self.dim(), self.living()),
            self.order().no_duplicates(),
            self.order().to_set() == self.living(),
    {
        assert forall|c: Cell| self.living().contains(c) implies in_grid(self.dim(), c) by {
            let i = choose|i: int| 0 <= i < self.cells@.len() && self.cells@[i] == c;
        }
    }

    /// Builds an engine on a `size` by `size` torus whose living set holds
    /// the seeds and, when `fill_percent` is positive, each other cell with a
    /// chance of `fill_percent` in a hundred (every cell from 100 up): one
    /// draw below 100 is made per cell and handed to `fill`.
    pub fn init(size: u32, initial_values: Vec<Cell>, fill_percent: u32) -> (r: Result<
        Game,
        GameError,
    >)
        ensures
            size == 0 ==> r == Err::<Game, GameError>(GameError::InvalidConfiguration),
            size > 0 && !seeds_in_grid(size, initial_values@) ==> r == Err::<Game, GameError>(
                GameError::SeedOutOfBounds,
            ),
            size > 0 && seeds_in_grid(size, initial_values@) ==> r is Ok,
            r matches Ok(g) ==> {
                &&& g.wf()
                &&& g.dim() == size
                &&& initial_values@.to_set().subset_of(g.living())
                &&& g.living().subset_of(full_grid(size))
                &&& fill_percent == 0 ==> g.living() == initial_values@.to_set()
                &&& fill_percent > 0 ==> exists|draws: Seq<u32>|
                    {
                        &&& draws.len() == size as int * size as int
                        &&& forall|k: int| 0 <= k < draws.len() ==> #[trigger] draws[k] < 100
                        &&& g.living() == initial_values@.to_set().union(
                            drawn_cells(size, draws, fill_percent),
                        )
                    }
                &&& fill_percent >= 100 ==> g.living() == full_grid(size)
            },
    {
        if size == 0 {
            return Err(GameError::InvalidConfiguration);
        }
        let mut k: usize = 0;
        while k < initial_values.len()
            invariant
                size > 0,
                k <= initial_values@.len(),
                forall|m: int| 0 <= m < k ==> in_grid(size, #[trigger] initial_values@[m]),
            decreases initial_values@.len() - k,
        {
            let c = initial_values[k];
            if c.0 >= size || c.1 >= size {
                return Err(GameError::SeedOutOfBounds);
            }
            k = k + 1;
        }
        let mut game = Game { size, cells: Vec::new(), index: HashSet::new() };
        assert(game.living() =~= Set::empty());
        let mut k: usize = 0;
        while k < initial_values.len()
            invariant
                game.wf(),
                game.size == size,
                k <= initial_values@.len(),
                seeds_in_grid(size, initial_values@),
                game.living() == initial_values@.take(k as int).to_set(),
            decreases initial_values@.len() - k,
        {
            let c = initial_values[k];
            game.add_cell(c);
            assert forall|d: Cell| initial_values@.take(k + 1).contains(d) <==> (initial_values@.take(
                k as int,
            ).contains(d) || d == c) by {
                if initial_values@.take(k + 1).contains(d) && d != c {
                    let m = choose|m: int| 0 <= m < k + 1 && #[trigger] initial_values@.take(k + 1)[m] == d;
                    assert(initial_values@.take(k as int)[m] == d);
                }
                if initial_values@.take(k as int).contains(d) {
                    let m = choose|m: int| 0 <= m < k && #[trigger] initial_values@.take(k as int)[m] == d;
                    assert(initial_values@.take(k + 1)[m] == d);
                }
                assert(initial_values@.take(k + 1)[k as int] == c);
            }
            assert(initial_values@.take(k + 1).to_set() =~= initial_values@.take(k as int).to_set().insert(c));
            k = k + 1;
        }
        assert(initial_values@.take(k as int) =~= initial_values@);
        let ghost seeds = initial_values@.to_set();
        let ghost drawn: Seq<u32> = Seq::empty();
        if fill_percent > 0 {
            let draws = random_draws(size);
            proof {
                drawn = draws@;
            }
            game.fill(&draws, fill_percent);
        }
        proof {
            game.lemma_wf_facts();
            if fill_percent == 0 {
                assert(game.living() =~= seeds);
            } else {
                assert(seeds.subset_of(game.living()));
                assert(game.living().subset_of(full_grid(size)));
            }
            if fill_percent >= 100 {
                assert forall|c: Cell| in_grid(size, c) implies game.living().contains(c) by {
                    lemma_cell_index(size, c);
                }
                assert(game.living() =~= full_grid(size));
            }
        }
        Ok(game)
    }

    /// Fills `vertices` with the mesh of the living set: for each living
    /// cell, in the draw order, the eighteen lattice values of its quad.
    pub fn render(&self, vertices: &mut Vec<u32>)
        requires
            self.wf(),
        ensures
            final(vertices)@ == mesh_of(self.order()),
    {
        vertices.clear();
        let mut i: usize = 0;
        while i < self.cells.len()
            invariant
                self.wf(),
                i <= self.cells@.len(),
                vertices@ == mesh_of(self.cells@.take(i as int)),
            decreases self.cells@.len() - i,
        {
            let c = self.cells[i];
            assert(in_grid(self.size, c));
            let x1 = c.0;
            let y1 = c.1;
            let x2 = c.0 + 1;
            let y2 = c.1 + 1;
            let ghost before = vertices@;
            vertices.push(x1);
            vertices.push(y1);
            vertices.push(0);
            vertices.push(x2);
            vertices.push(y2);
            vertices.push(0);
            vertices.push(x2);
            vertices.push(y1);
            vertices.push(0);
            vertices.push(x2);
            vertices.push(y2);
            vertices.push(0);
            vertices.push(x1);
            vertices.push(y2);
            vertices.push(0);
            vertices.push(x1);
            vertices.push(y1);
            vertices.push(0);
            assert(vertices@ =~= before + quad(c));
            assert(self.cells@.take(i + 1).drop_last() =~= self.cells@.take(i as int));
            i = i + 1;
        }
        assert(self.cells@.take(i as int) =~= self.cells@);
    }

    /// Makes alive each cell `(x, y)` of the grid whose draw, at index
    /// `x * n + y` of `draws`, is below `fill_percent`.
    pub fn fill(&mut self, draws: &Vec<u32>, fill_percent: u32)
        requires
            old(self).wf(),
            draws@.len() == old(self).dim() as int * old(self).dim() as int,
        ensures
            final(self).wf(),
            final(self).dim() == old(self).dim(),
            final(self).living() == old(self).living().union(
                drawn_cells(old(self).dim(), draws@, fill_percent),
            ),
    {
        let n = self.size;
        let total = draws.len();
        let ghost start = self.living();
        let mut i: u32 = 0;
        let mut idx: usize = 0;
        while i < n
            invariant
                self.wf(),
                self.size == n,
                i <= n,
                idx as int == i as int * n as int,
                draws@.len() == n as int * n as int,
                total == draws@.len(),
                self.living() == start.union(drawn_before(n, draws@, fill_percent, i as int, 0)),
            decreases n - i,
        {
            let mut j: u32 = 0;
            while j < n
                invariant
                    self.wf(),
                    self.size == n,
                    i < n,
                    j <= n,
                    idx as int == i as int * n as int + j as int,
                    draws@.len() == n as int * n as int,
                    total == draws@.len(),
                    self.living() == start.union(
                        drawn_before(n, draws@, fill_percent, i as int, j as int),
                    ),
                decreases n - j,
            {
                proof {
                    lemma_cell_index(n, (i, j));
                }
                if draws[idx] < fill_percent {
                    self.add_cell((i, j));
                }
                assert(self.living() =~= start.union(
                    drawn_before(n, draws@, fill_percent, i as int, j + 1),
                ));
                idx = idx + 1;
                j = j + 1;
            }
            assert(idx as int == (i + 1) as int * n as int) by (nonlinear_arith)
                requires
                    idx as int == i as int * n as int + n as int,
            ;
            assert(drawn_before(n, draws@, fill_percent, i as int, n as int) =~= drawn_before(
                n,
                draws@,
                fill_percent,
                i + 1,
                0,
            ));
            i = i + 1;
        }
        assert(drawn_before(n, draws@, fill_percent, n as int, 0) =~= drawn_cells(
            n,
            draws@,
            fill_percent,
        ));
    }

    /// Makes `c` alive.
    fn add_cell(&mut self, c: Cell)
        requires
            old(self).wf(),
            in_grid(old(self).size, c),
        ensures
            final(self).wf(),
            final(self).size == old(self).size,
            final(self).living() == old(self).living().insert(c),
    {
        let k = cell_key(c);
        proof {
            assert forall|d: Cell| key_of(d) == k implies d == c by {
                lemma_key_injective(d, c);
            }
        }
        if !self.index.contains(&k) {
            let ghost old_cells = self.cells@;
            self.cells.push(c);
            self.index.insert(k);
            assert forall|i: int, j: int|
                0 <= i < self.cells@.len() && 0 <= j < self.cells@.len() && i != j implies self.cells@[i]
                != self.cells@[j] by {
                if i < old_cells.len() && j < old_cells.len() {
                } else if i < old_cells.len() {
                    assert(old_cells.contains(self.cells@[i]));
                } else {
                    assert(old_cells.contains(self.cells@[j]));
                }
            }
            assert forall|d: Cell| in_grid(self.size, d) implies (self.index@.contains(key_of(d))
                <==> self.cells@.contains(d)) by {
                if d != c {
                    assert(key_of(d) != k);
                    if old_cells.contains(d) {
                        let i = choose|i: int| 0 <= i < old_cells.len() && old_cells[i] == d;
                        assert(self.cells@[i] == d);
                    }
                    if self.cells@.contains(d) {
                        let i = choose|i: int| 0 <= i < self.cells@.len() && self.cells@[i] == d;
                        assert(old_cells[i] == d);
                    }
                } else {
                    assert(self.cells@[self.cells@.len() - 1] == c);
                }
            }
            assert(self.cells@ == old_cells.push(c));
        }
        assert forall|d: Cell| self.cells@.contains(d) <==> (old(self).cells@.contains(d) || d == c) by {
            if self.cells@.len() > old(self).cells@.len() {
                if old(self).cells@.contains(d) {
                    let i = choose|i: int| 0 <= i < old(self).cells@.len() && old(self).cells@[i] == d;
                    assert(self.cells@[i] == d);
                }
                if self.cells@.contains(d) && d != c {
                    let i = choose|i: int| 0 <= i < self.cells@.len() && self.cells@[i] == d;
                    assert(old(self).cells@[i] == d);
                }
                assert(self.cells@[self.cells@.len() - 1] == c);
            }
        }
        assert(self.living() =~= old(self).living().insert(c));
    }

    fn sub_one(&self, value: u32) -> (r: u32)
        requires
            self.size > 0,
            value < self.size,
        ensures
            r == wrap_prev(self.size, value),
            r == (value + self.size - 1) % (self.size as int),
            r < self.size,
    {
        proof {
            lemma_wrap_inverse(self.size, value);
        }
        if value == 0 {
            self.size - 1
        } else {
            value - 1
        }
    }

    fn add_one(&self, value: u32) -> (r: u32)
        requires
            self.size > 0,
            value < self.size,
        ensures
            r == wrap_next(self.size, value),
            r == (value + 1) % (self.size as int),
            r < self.size,
    {
        proof {
            lemma_wrap_inverse(self.size, value);
        }
        if value == self.size - 1 {
            0
        } else {
            value + 1
        }
    }

    /// Whether `c` is alive; a cell outside the grid never is.
    pub fn is_alive(&self, c: Cell) -> (r: bool)
        requires
            self.wf(),
        ensures
            r == self.living().contains(c),
    {
        proof {
            self.lemma_wf_facts();
        }
        if c.0 >= self.size || c.1 >= self.size {
            return false;
        }
        assert(in_grid(self.size, c));
        self.index.contains(&cell_key(c))
    }

    /// The side length of the grid.
    pub fn size(&self) -> (r: u32)
        requires
            self.wf(),
        ensures
            r == self.dim(),
    {
        self.size
    }

    /// The number of living cells.
    pub fn population(&self) -> (r: usize)
        requires
            self.wf(),
        ensures
            r == self.living().len(),
    {
        proof {
            self.lemma_wf_facts();
            self.cells@.unique_seq_to_set();
        }
        self.cells.len()
    }

    /// The living cells, each once, in the draw order.
    pub fn living_cells(&self) -> (r: Vec<Cell>)
        requires
            self.wf(),
        ensures
            r@ == self.order(),
            r@.to_set() == self.living(),
    {
        let mut out: Vec<Cell> = Vec::new();
        let mut i: usize = 0;
        while i < self.cells.len()
            invariant
                i <= self.cells@.len(),
                out@ == self.cells@.take(i as int),
            decreases self.cells@.len() - i,
        {
            out.push(self.cells[i]);
            assert(out@ =~= self.cells@.take(i + 1));
            i = i + 1;
        }
        assert(out@ =~= self.cells@);
        out
    }

    fn live_neighbors(&self, c: Cell) -> (r: u8)
        requires
            self.wf(),
            in_grid(self.size, c),
        ensures
            r as nat == neighbor_count(self.size, self.living(), c),
    {
        proof {
            lemma_wrap_inverse(self.size, c.0);
            lemma_wrap_inverse(self.size, c.1);
        }
        let l = self.sub_one(c.0);
        let r = self.add_one(c.0);
        let t = self.sub_one(c.1);
        let b = self.add_one(c.1);
        let mut count: u8 = 0;
        if self.is_alive((l, t)) {
            count = count + 1;
        }
        if self.is_alive((c.0, t)) {
            count = count + 1;
        }
        if self.is_alive((r, t)) {
            count = count + 1;
        }
        if self.is_alive((l, c.1)) {
            count = count + 1;
        }
        if self.is_alive((r, c.1)) {
            count = count + 1;
        }
        if self.is_alive((l, b)) {
            count = count + 1;
        }
        if self.is_alive((c.0, b)) {
            count = count + 1;
        }
        if self.is_alive((r, b)) {
            count = count + 1;
        }
        count
    }

    /// Decides the fate of `c` unless it was decided before.
    fn visit(
        &self,
        c: Cell,
        seen: &mut HashSet<u64>,
        out: &mut Vec<Cell>,
        out_index: &mut HashSet<u64>,
    )
        requires
            self.wf(),
            in_grid(self.size, c),
            tracks(self.size, self.living(), old(seen)@, old(out)@, old(out_index)@),
        ensures
            tracks(self.size, self.living(), final(seen)@, final(out)@, final(out_index)@),
            forall|d: Cell|
                in_grid(self.size, d) ==> (final(seen)@.contains(key_of(d)) <==> (old(
                    seen,
                )@.contains(key_of(d)) || d == c)),
    {
        let ghost n = self.size;
        let ghost live = self.living();
        let k = cell_key(c);
        proof {
            assert forall|d: Cell| key_of(d) == k implies d == c by {
                lemma_key_injective(d, c);
            }
        }
        if !seen.contains(&k) {
            seen.insert(k);
            let count = self.live_neighbors(c);
            let alive = self.is_alive(c);
            if (alive && (count == 2 || count == 3)) || (!alive && count == 3) {
                assert(!old(out)@.contains(c));
                out.push(c);
                out_index.insert(k);
                assert(next_generation(n, live).contains(c));
                assert forall|i: int, j: int|
                    0 <= i < out@.len() && 0 <= j < out@.len() && i != j implies out@[i]
                    != out@[j] by {
                    if i < old(out)@.len() && j < old(out)@.len() {
                    } else if i < old(out)@.len() {
                        assert(old(out)@.contains(out@[i]));
                    } else {
                        assert(old(out)@.contains(out@[j]));
                    }
                }
                assert forall|d: Cell| in_grid(n, d) implies (out_index@.contains(key_of(d))
                    <==> out@.contains(d)) by {
                    if d != c {
                        assert(key_of(d) != k);
                        if old(out)@.contains(d) {
                            let i = choose|i: int| 0 <= i < old(out)@.len() && old(out)@[i] == d;
                            assert(out@[i] == d);
                        }
                        if out@.contains(d) {
                            let i = choose|i: int| 0 <= i < out@.len() && out@[i] == d;
                            assert(old(out)@[i] == d);
                        }
                    } else {
                        assert(out@[out@.len() - 1] == c);
                    }
                }
            } else {
                assert(!next_generation(n, live).contains(c));
            }
        }
    }

    /// The living cells of the next generation, and their keys.
    fn next_cells(&self) -> (r: (Vec<Cell>, HashSet<u64>))
        requires
            self.wf(),
        ensures
            r.0@.no_duplicates(),
            forall|i: int| 0 <= i < r.0@.len() ==> in_grid(self.size, #[trigger] r.0@[i]),
            forall|d: Cell| in_grid(self.size, d) ==> (r.1@.contains(key_of(d)) <==> r.0@.contains(d)),
            r.0@.to_set() == next_generation(self.size, self.living()),
    {
        let ghost n = self.size;
        let ghost live = self.living();
        let mut seen: HashSet<u64> = HashSet::new();
        let mut out: Vec<Cell> = Vec::new();
        let mut out_index: HashSet<u64> = HashSet::new();
        let mut i: usize = 0;
        while i < self.cells.len()
            invariant
                self.wf(),
                n == self.size,
                live == self.living(),
                i <= self.cells@.len(),
                tracks(n, live, seen@, out@, out_index@),
                forall|d: Cell|
                    in_grid(n, d) ==> (seen@.contains(key_of(d)) <==> exists|j: int|
                        0 <= j < i && #[trigger] around(n, self.cells@[j], d)),
            decreases self.cells@.len() - i,
        {
            let p = self.cells[i];
            let ghost seen0 = seen@;
            proof {
                lemma_wrap_inverse(n, p.0);
                lemma_wrap_inverse(n, p.1);
            }
            let l = self.sub_one(p.0);
            let r = self.add_one(p.0);
            let t = self.sub_one(p.1);
            let b = self.add_one(p.1);
            self.visit((l, t), &mut seen, &mut out, &mut out_index);
            self.visit((p.0, t), &mut seen, &mut out, &mut out_index);
            self.visit((r, t), &mut seen, &mut out, &mut out_index);
            self.visit((l, p.1), &mut seen, &mut out, &mut out_index);
            self.visit(p, &mut seen, &mut out, &mut out_index);
            self.visit((r, p.1), &mut seen, &mut out, &mut out_index);
            self.visit((l, b), &mut seen, &mut out, &mut out_index);
            self.visit((p.0, b), &mut seen, &mut out, &mut out_index);
            self.visit((r, b), &mut seen, &mut out, &mut out_index);
            assert forall|d: Cell| in_grid(n, d) implies (seen@.contains(key_of(d)) <==> exists|
                j: int,
            | 0 <= j < i + 1 && #[trigger] around(n, self.cells@[j], d)) by {
                if seen@.contains(key_of(d)) && !seen0.contains(key_of(d)) {
                    assert(around(n, self.cells@[i as int], d));
                }
                if exists|j: int| 0 <= j < i + 1 && #[trigger] around(n, self.cells@[j], d) {
                    let j = choose|j: int| 0 <= j < i + 1 && #[trigger] around(n, self.cells@[j], d);
                    if j == i {
                        assert(around(n, p, d));
                    }
                }
            }
            i = i + 1;
        }
        proof {
            self.lemma_wf_facts();
            assert forall|d: Cell| #[trigger] next_generation(n, live).contains(d) implies out@.contains(
                d,
            ) by {
                lemma_next_has_source(n, live, d);
                let p = choose|p: Cell| live.contains(p) && around(n, p, d);
                let j = choose|j: int| 0 <= j < self.cells@.len() && self.cells@[j] == p;
                assert(around(n, self.cells@[j], d));
            }
            assert forall|d: Cell| out@.contains(d) implies next_generation(n, live).contains(d) by {
                let j = choose|j: int| 0 <= j < out@.len() && out@[j] == d;
            }
            assert(out@.to_set() =~= next_generation(n, live));
        }
        (out, out_index)
    }

    /// Advances the simulation by one generation.
    pub fn update(&mut self)
        requires
            old(self).wf(),
        ensures
            final(self).wf(),
            final(self).dim() == old(self).dim(),
            final(self).living() == next_generation(old(self).dim(), old(self).living()),
    {
        let (cells, index) = self.next_cells();
        self.cells = cells;
        self.index = index;
    }
}

/// The mesh holds exactly eighteen values per living cell, and its quads,
/// taken in any order, are the quads of the living set.
pub proof fn lemma_mesh_cardinality(g: &Game)
    requires
        g.wf(),
    ensures
        mesh_of(g.order()).len() == 18 * g.living().len(),
        g.order().to_set() == g.living(),
        g.order().len() == g.living().len(),
        forall|i: int|
            0 <= i < g.order().len() ==> mesh_of(g.order()).subrange(18 * i, 18 * i + 18) == quad(
                #[trigger] g.order()[i],
            ),
{
    g.lemma_wf_facts();
    g.order().unique_seq_to_set();
    lemma_mesh_len(g.order());
    assert forall|i: int| 0 <= i < g.order().len() implies mesh_of(g.order()).subrange(
        18 * i,
        18 * i + 18,
    ) == quad(#[trigger] g.order()[i]) by {
        lemma_mesh_index(g.order(), i);
    }
}

/// Two renders of an engine with no update between them give the same values.
pub proof fn lemma_render_repeatable(g: &Game, first: Seq<u32>, second: Seq<u32>)
    requires
        g.wf(),
        first == mesh_of(g.order()),
        second == mesh_of(g.order()),
    ensures
        first == second,
{
}

} // verus!
