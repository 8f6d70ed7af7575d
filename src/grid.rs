//! The mathematical model of the toroidal grid: wrap-around coordinates,
//! neighbor counts, and the B3/S23 rule that maps one generation to the next.

use vstd::prelude::*;

verus! {

/// A cell coordinate `(x, y)`.
pub type Cell = (u32, u32);

/// Both coordinates of `c` lie in `[0, n)`.
pub open spec fn in_grid(n: u32, c: Cell) -> bool {
    c.0 < n && c.1 < n
}

/// The coordinate before `v` on an axis of length `n`, wrapping from 0 to `n - 1`.
pub open spec fn wrap_prev(n: u32, v: u32) -> u32 {
    if v == 0 {
        (n - 1) as u32
    } else {
        (v - 1) as u32
    }
}

/// The coordinate after `v` on an axis of length `n`, wrapping from `n - 1` to 0.
pub open spec fn wrap_next(n: u32, v: u32) -> u32 {
    if v + 1 == n {
        0
    } else {
        (v + 1) as u32
    }
}

/// 1 when `c` is alive in `live`, else 0.
pub open spec fn alive_at(live: Set<Cell>, c: Cell) -> nat {
    if live.contains(c) {
        1
    } else {
        0
    }
}

/// The number of living cells among the eight toroidal neighbors of `c`,
/// each neighbor position counted once per direction that reaches it.
pub open spec fn neighbor_count(n: u32, live: Set<Cell>, c: Cell) -> nat {
    let l = wrap_prev(n, c.0);
    let r = wrap_next(n, c.0);
    let t = wrap_prev(n, c.1);
    let b = wrap_next(n, c.1);
    alive_at(live, (l, t)) + alive_at(live, (c.0, t)) + alive_at(live, (r, t)) + alive_at(
        live,
        (l, c.1),
    ) + alive_at(live, (r, c.1)) + alive_at(live, (l, b)) + alive_at(live, (c.0, b)) + alive_at(
        live,
        (r, b),
    )
}

/// The B3/S23 rule: a living cell stays alive with 2 or 3 living neighbors,
/// a dead cell comes alive with exactly 3.
pub open spec fn lives_next(alive: bool, count: nat) -> bool {
    if alive {
        count == 2 || count == 3
    } else {
        count == 3
    }
}

/// The living set one generation after `live` on an `n` by `n` torus.
pub open spec fn next_generation(n: u32, live: Set<Cell>) -> Set<Cell> {
    Set::new(|c: Cell| in_grid(n, c) && lives_next(live.contains(c), neighbor_count(n, live, c)))
}

/// Every cell of `live` lies in the grid.
pub open spec fn within(n: u32, live: Set<Cell>) -> bool {
    forall|c: Cell| live.contains(c) ==> in_grid(n, c)
}

/// `c` is `p` itself or one of the eight toroidal neighbors of `p`.
pub open spec fn around(n: u32, p: Cell, c: Cell) -> bool {
    let xs = c.0 == wrap_prev(n, p.0) || c.0 == p.0 || c.0 == wrap_next(n, p.0);
    let ys = c.1 == wrap_prev(n, p.1) || c.1 == p.1 || c.1 == wrap_next(n, p.1);
    xs && ys
}

/// The key under which a cell is stored in a hash set: `x` in the high half,
/// `y` in the low half.
pub open spec fn key_of(c: Cell) -> u64 {
    ((c.0 as u64) << 32u64) | (c.1 as u64)
}

/// Distinct cells have distinct keys.
pub proof fn lemma_key_injective(c: Cell, d: Cell)
    requires
        key_of(c) == key_of(d),
    ensures
        c == d,
{
    let (a, b) = c;
    let (e, f) = d;
    assert(a == e && b == f) by (bit_vector)
        requires
            ((a as u64) << 32u64) | (b as u64) == ((e as u64) << 32u64) | (f as u64),
    ;
}

/// Stepping back and then forward on an axis returns to the start, and so
/// does stepping forward and then back; the steps are subtraction and
/// addition of one modulo `n`.
pub proof fn lemma_wrap_inverse(n: u32, v: u32)
    requires
        v < n,
    ensures
        wrap_prev(n, v) < n,
        wrap_next(n, v) < n,
        wrap_next(n, wrap_prev(n, v)) == v,
        wrap_prev(n, wrap_next(n, v)) == v,
        wrap_prev(n, v) == (v + n - 1) % (n as int),
        wrap_next(n, v) == (v + 1) % (n as int),
{
    let m = n as int;
    let w = v as int;
    if w == 0 {
        assert((w + m - 1) % m == m - 1) by (nonlinear_arith)
            requires
                w == 0,
                m > 0,
        ;
    } else {
        assert((w + m - 1) % m == w - 1) by (nonlinear_arith)
            requires
                0 < w < m,
        ;
    }
    if w + 1 == m {
        vstd::arithmetic::div_mod::lemma_mod_self_0(m);
    } else {
        assert((w + 1) % m == w + 1) by (nonlinear_arith)
            requires
                0 <= w,
                w + 1 < m,
        ;
    }
}

/// The grid wraps: `(n - 1, y)` is the left neighbor of `(0, y)` and `(0, y)`
/// the right neighbor of `(n - 1, y)`, so each one, when alive, counts as a
/// living neighbor of the other.
pub proof fn lemma_toroidal_wrap(n: u32, live: Set<Cell>, y: u32)
    requires
        y < n,
    ensures
        wrap_prev(n, 0) == n - 1,
        wrap_next(n, (n - 1) as u32) == 0,
        live.contains(((n - 1) as u32, y)) ==> neighbor_count(n, live, (0, y)) >= 1,
        live.contains((0, y)) ==> neighbor_count(n, live, ((n - 1) as u32, y)) >= 1,
{
}

/// A 2 by 2 block of living cells is a still life on a torus of side at
/// least 4: the next generation equals it.
pub proof fn lemma_block_still_life(n: u32, x: u32, y: u32)
    requires
        n >= 4,
        x + 1 < n,
        y + 1 < n,
    ensures
        next_generation(n, set![(x, y), ((x + 1) as u32, y), (x, (y + 1) as u32), ((x + 1) as u32, (y + 1) as u32)])
            == set![(x, y), ((x + 1) as u32, y), (x, (y + 1) as u32), ((x + 1) as u32, (y + 1) as u32)],
{
    let block = set![(x, y), ((x + 1) as u32, y), (x, (y + 1) as u32), ((x + 1) as u32, (y + 1) as u32)];
    assert(next_generation(n, block) =~= block);
}

/// Four consecutive coordinates `v0, v1, v2, v3` of an axis of length `n`,
/// each the wrapped successor of the one before.
pub open spec fn run_of_four(n: u32, v0: u32, v1: u32, v2: u32, v3: u32) -> bool {
    &&& v0 < n
    &&& v1 == wrap_next(n, v0)
    &&& v2 == wrap_next(n, v1)
    &&& v3 == wrap_next(n, v2)
}

/// The four phases of a glider moving by `(1, 1)`, over the columns
/// `x0..x3` and the rows `y0..y3` that it occupies.
pub open spec fn glider_phase(k: int, x0: u32, x1: u32, x2: u32, x3: u32, y0: u32, y1: u32, y2: u32, y3: u32) -> Set<Cell> {
    if k == 0 {
        set![(x1, y0), (x2, y1), (x0, y2), (x1, y2), (x2, y2)]
    } else if k == 1 {
        set![(x0, y1), (x1, y2), (x1, y3), (x2, y1), (x2, y2)]
    } else if k == 2 {
        set![(x0, y2), (x1, y3), (x2, y1), (x2, y2), (x2, y3)]
    } else {
        set![(x1, y1), (x1, y3), (x2, y2), (x2, y3), (x3, y2)]
    }
}

#[verifier::rlimit(100)]
proof fn lemma_glider_step_0(n: u32, x0: u32, x1: u32, x2: u32, x3: u32, x4: u32, y0: u32, y1: u32, y2: u32, y3: u32, y4: u32)
    requires
        n >= 5,
        run_of_four(n, x0, x1, x2, x3),
        run_of_four(n, y0, y1, y2, y3),
        x4 == wrap_next(n, x3),
        y4 == wrap_next(n, y3),
    ensures
        next_generation(n, glider_phase(0, x0, x1, x2, x3, y0, y1, y2, y3)) == glider_phase(1, x0, x1, x2, x3, y0, y1, y2, y3),
{
    lemma_wrap_inverse(n, x0);
    lemma_wrap_inverse(n, x1);
    lemma_wrap_inverse(n, x2);
    lemma_wrap_inverse(n, x3);
    lemma_wrap_inverse(n, y0);
    lemma_wrap_inverse(n, y1);
    lemma_wrap_inverse(n, y2);
    lemma_wrap_inverse(n, y3);
    assert(next_generation(n, glider_phase(0, x0, x1, x2, x3, y0, y1, y2, y3)) =~= glider_phase(1, x0, x1, x2, x3, y0, y1, y2, y3));
}

#[verifier::rlimit(100)]
proof fn lemma_glider_step_1(n: u32, x0: u32, x1: u32, x2: u32, x3: u32, x4: u32, y0: u32, y1: u32, y2: u32, y3: u32, y4: u32)
    requires
        n >= 5,
        run_of_four(n, x0, x1, x2, x3),
        run_of_four(n, y0, y1, y2, y3),
        x4 == wrap_next(n, x3),
        y4 == wrap_next(n, y3),
    ensures
        next_generation(n, glider_phase(1, x0, x1, x2, x3, y0, y1, y2, y3)) == glider_phase(2, x0, x1, x2, x3, y0, y1, y2, y3),
{
    lemma_wrap_inverse(n, x0);
    lemma_wrap_inverse(n, x1);
    lemma_wrap_inverse(n, x2);
    lemma_wrap_inverse(n, x3);
    lemma_wrap_inverse(n, y0);
    lemma_wrap_inverse(n, y1);
    lemma_wrap_inverse(n, y2);
    lemma_wrap_inverse(n, y3);
    assert(next_generation(n, glider_phase(1, x0, x1, x2, x3, y0, y1, y2, y3)) =~= glider_phase(2, x0, x1, x2, x3, y0, y1, y2, y3));
}

#[verifier::rlimit(100)]
proof fn lemma_glider_step_2(n: u32, x0: u32, x1: u32, x2: u32, x3: u32, x4: u32, y0: u32, y1: u32, y2: u32, y3: u32, y4: u32)
    requires
        n >= 5,
        run_of_four(n, x0, x1, x2, x3),
        run_of_four(n, y0, y1, y2, y3),
        x4 == wrap_next(n, x3),
        y4 == wrap_next(n, y3),
    ensures
        next_generation(n, glider_phase(2, x0, x1, x2, x3, y0, y1, y2, y3)) == glider_phase(3, x0, x1, x2, x3, y0, y1, y2, y3),
{
    lemma_wrap_inverse(n, x0);
    lemma_wrap_inverse(n, x1);
    lemma_wrap_inverse(n, x2);
    lemma_wrap_inverse(n, x3);
    lemma_wrap_inverse(n, y0);
    lemma_wrap_inverse(n, y1);
    lemma_wrap_inverse(n, y2);
    lemma_wrap_inverse(n, y3);
    assert(next_generation(n, glider_phase(2, x0, x1, x2, x3, y0, y1, y2, y3)) =~= glider_phase(3, x0, x1, x2, x3, y0, y1, y2, y3));
}

#[verifier::rlimit(100)]
proof fn lemma_glider_step_3(n: u32, x0: u32, x1: u32, x2: u32, x3: u32, x4: u32, y0: u32, y1: u32, y2: u32, y3: u32, y4: u32)
    requires
        n >= 5,
        run_of_four(n, x0, x1, x2, x3),
        run_of_four(n, y0, y1, y2, y3),
        x4 == wrap_next(n, x3),
        y4 == wrap_next(n, y3),
    ensures
        next_generation(n, glider_phase(3, x0, x1, x2, x3, y0, y1, y2, y3)) == glider_phase(0, x1, x2, x3, x4, y1, y2, y3, y4),
{
    lemma_wrap_inverse(n, x0);
    lemma_wrap_inverse(n, x1);
    lemma_wrap_inverse(n, x2);
    lemma_wrap_inverse(n, x3);
    lemma_wrap_inverse(n, y0);
    lemma_wrap_inverse(n, y1);
    lemma_wrap_inverse(n, y2);
    lemma_wrap_inverse(n, y3);
    assert(next_generation(n, glider_phase(3, x0, x1, x2, x3, y0, y1, y2, y3)) =~= glider_phase(0, x1, x2, x3, x4, y1, y2, y3, y4));
}

/// Coordinate `a + k` on an axis of length `n`, wrapped into `[0, n)`.
pub open spec fn shifted(n: u32, a: u32, k: int) -> u32 {
    ((a as int + k) % (n as int)) as u32
}

proof fn lemma_shifted_next(n: u32, a: u32, k: int)
    requires
        n >= 2,
        a < n,
        0 <= k,
    ensures
        shifted(n, a, k) < n,
        shifted(n, a, k) == (a as int + k) % (n as int),
        wrap_next(n, shifted(n, a, k)) == shifted(n, a, k + 1),
{
    let m = n as int;
    let v = (a as int + k) % m;
    assert(0 <= v < m) by (nonlinear_arith)
        requires
            v == (a as int + k) % m,
            m > 0,
            a as int + k >= 0,
    ;
    lemma_wrap_inverse(n, v as u32);
    vstd::arithmetic::div_mod::lemma_small_mod(1, m as nat);
    vstd::arithmetic::div_mod::lemma_add_mod_noop(a as int + k, 1, m);
}

proof fn lemma_shifted_twice(n: u32, a: u32, k: int)
    requires
        n >= 2,
        a < n,
        0 <= k < n,
    ensures
        shifted(n, shifted(n, a, 1), k) == shifted(n, a, k + 1),
{
    let m = n as int;
    lemma_shifted_next(n, a, 1);
    vstd::arithmetic::div_mod::lemma_small_mod(k as nat, m as nat);
    vstd::arithmetic::div_mod::lemma_add_mod_noop(a as int + 1, k, m);
}

/// The glider `{(1, 0), (2, 1), (0, 2), (1, 2), (2, 2)}` moved by `(a, b)`
/// on an `n` by `n` torus, each coordinate taken modulo `n`.
pub open spec fn glider(n: u32, a: u32, b: u32) -> Set<Cell> {
    set![
        (shifted(n, a, 1), shifted(n, b, 0)),
        (shifted(n, a, 2), shifted(n, b, 1)),
        (shifted(n, a, 0), shifted(n, b, 2)),
        (shifted(n, a, 1), shifted(n, b, 2)),
        (shifted(n, a, 2), shifted(n, b, 2)),
    ]
}

/// On a torus of side at least 5, a glider placed anywhere comes back after
/// four generations moved by one column and one row, wrapping at the edges.
pub proof fn lemma_glider_period(n: u32, a: u32, b: u32)
    requires
        n >= 5,
        a < n,
        b < n,
    ensures
        next_generation(n, next_generation(n, next_generation(n, next_generation(n, glider(n, a, b)))))
            == glider(n, shifted(n, a, 1), shifted(n, b, 1)),
{
    lemma_shifted_next(n, a, 0);
    lemma_shifted_next(n, a, 1);
    lemma_shifted_next(n, a, 2);
    lemma_shifted_next(n, a, 3);
    lemma_shifted_next(n, b, 0);
    lemma_shifted_next(n, b, 1);
    lemma_shifted_next(n, b, 2);
    lemma_shifted_next(n, b, 3);
    lemma_shifted_twice(n, a, 0);
    lemma_shifted_twice(n, a, 1);
    lemma_shifted_twice(n, a, 2);
    lemma_shifted_twice(n, b, 0);
    lemma_shifted_twice(n, b, 1);
    lemma_shifted_twice(n, b, 2);
    vstd::arithmetic::div_mod::lemma_small_mod(a as nat, n as nat);
    vstd::arithmetic::div_mod::lemma_small_mod(b as nat, n as nat);
    let x0 = shifted(n, a, 0);
    let x1 = shifted(n, a, 1);
    let x2 = shifted(n, a, 2);
    let x3 = shifted(n, a, 3);
    let x4 = shifted(n, a, 4);
    let y0 = shifted(n, b, 0);
    let y1 = shifted(n, b, 1);
    let y2 = shifted(n, b, 2);
    let y3 = shifted(n, b, 3);
    let y4 = shifted(n, b, 4);
    assert(glider(n, a, b) == glider_phase(0, x0, x1, x2, x3, y0, y1, y2, y3));
    lemma_glider_step_0(n, x0, x1, x2, x3, x4, y0, y1, y2, y3, y4);
    lemma_glider_step_1(n, x0, x1, x2, x3, x4, y0, y1, y2, y3, y4);
    lemma_glider_step_2(n, x0, x1, x2, x3, x4, y0, y1, y2, y3, y4);
    lemma_glider_step_3(n, x0, x1, x2, x3, x4, y0, y1, y2, y3, y4);
    assert(glider(n, x1, y1) == glider_phase(0, x1, x2, x3, x4, y1, y2, y3, y4));
}

/// A cell that is alive alone in the grid dies in the next generation, and
/// no cell is born.
pub proof fn lemma_lone_cell_dies(n: u32, c: Cell)
    requires
        in_grid(n, c),
    ensures
        !next_generation(n, set![c]).contains(c),
        next_generation(n, set![c]) == Set::<Cell>::empty(),
{
    assert(next_generation(n, set![c]) =~= Set::<Cell>::empty());
}

/// A living cell with no living neighbor dies.
pub proof fn lemma_isolated_cell_dies(n: u32, live: Set<Cell>, c: Cell)
    requires
        live.contains(c),
        neighbor_count(n, live, c) == 0,
    ensures
        !next_generation(n, live).contains(c),
{
}

/// A dead cell of the grid comes alive exactly when it has three living
/// neighbors: with 2, or with 4 or more, it stays dead.
pub proof fn lemma_birth(n: u32, live: Set<Cell>, c: Cell)
    requires
        in_grid(n, c),
        !live.contains(c),
    ensures
        neighbor_count(n, live, c) == 3 ==> next_generation(n, live).contains(c),
        neighbor_count(n, live, c) == 2 ==> !next_generation(n, live).contains(c),
        neighbor_count(n, live, c) >= 4 ==> !next_generation(n, live).contains(c),
{
}

/// A living cell of the grid survives with 2 or 3 living neighbors and dies
/// with fewer than 2 or more than 3.
pub proof fn lemma_survival(n: u32, live: Set<Cell>, c: Cell)
    requires
        in_grid(n, c),
        live.contains(c),
    ensures
        neighbor_count(n, live, c) < 2 ==> !next_generation(n, live).contains(c),
        neighbor_count(n, live, c) > 3 ==> !next_generation(n, live).contains(c),
        neighbor_count(n, live, c) == 2 ==> next_generation(n, live).contains(c),
        neighbor_count(n, live, c) == 3 ==> next_generation(n, live).contains(c),
{
}

/// The key of a cell, as stored in the living index.
pub fn cell_key(c: Cell) -> (k: u64)
    ensures
        k == key_of(c),
{
    ((c.0 as u64) << 32u64) | (c.1 as u64)
}

} // verus!
