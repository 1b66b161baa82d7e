use vstd::prelude::*;

use crate::cell::Cell;
use crate::possibility::{lemma_empty_mask, lemma_mask_ext, Possibility};

verus! {

// ---------------------------------------------------------------------------
// Houses.
//
// A house is one of the 27 areas whose nine cells must carry mutually
// distinct values: kind 0 is a row, kind 1 a column, kind 2 a 3x3 square,
// each numbered 0..9.  `house_index(t, n, k)` is the linear board index of
// position `k` within house `n` of kind `t`.
// ---------------------------------------------------------------------------
pub open spec fn house_row(t: int, n: int, k: int) -> int {
    if t == 0 {
        n
    } else if t == 1 {
        k
    } else {
        (n / 3) * 3 + k / 3
    }
}

pub open spec fn house_col(t: int, n: int, k: int) -> int {
    if t == 0 {
        k
    } else if t == 1 {
        n
    } else {
        (n % 3) * 3 + k % 3
    }
}

pub open spec fn house_index(t: int, n: int, k: int) -> int {
    house_row(t, n, k) * 9 + house_col(t, n, k)
}

/// Board index `i` belongs to house (t, n).
pub open spec fn in_house(t: int, n: int, i: int) -> bool {
    exists|k: int| 0 <= k < 9 && i == house_index(t, n, k)
}

pub proof fn lemma_house_bounds(t: int, n: int, k: int)
    requires
        0 <= t < 3,
        0 <= n < 9,
        0 <= k < 9,
    ensures
        0 <= house_row(t, n, k) < 9,
        0 <= house_col(t, n, k) < 9,
        0 <= house_index(t, n, k) < 81,
{
}

/// Within one house, distinct positions name distinct board cells.
pub proof fn lemma_house_injective(t: int, n: int, j: int, k: int)
    requires
        0 <= t < 3,
        0 <= n < 9,
        0 <= j < 9,
        0 <= k < 9,
        j != k,
    ensures
        house_index(t, n, j) != house_index(t, n, k),
{
    lemma_house_bounds(t, n, j);
    lemma_house_bounds(t, n, k);
    if house_index(t, n, j) == house_index(t, n, k) {
        assert(house_row(t, n, j) == house_row(t, n, k) && house_col(t, n, j) == house_col(
            t,
            n,
            k,
        )) by (nonlinear_arith)
            requires
                0 <= house_row(t, n, j) < 9,
                0 <= house_col(t, n, j) < 9,
                0 <= house_row(t, n, k) < 9,
                0 <= house_col(t, n, k) < 9,
                house_row(t, n, j) * 9 + house_col(t, n, j) == house_row(t, n, k) * 9 + house_col(
                    t,
                    n,
                    k,
                ),
        ;
        if t == 2 {
            assert(j == (j / 3) * 3 + j % 3);
            assert(k == (k / 3) * 3 + k % 3);
        }
    }
}

/// Two different rows (or two different columns) share no cell.
pub proof fn lemma_line_cross_distinct(t: int, n1: int, n2: int, p: int, j: int)
    requires
        t == 0 || t == 1,
        0 <= n1 < 9,
        0 <= n2 < 9,
        n1 != n2,
        0 <= p < 9,
        0 <= j < 9,
    ensures
        house_index(t, n1, p) != house_index(t, n2, j),
{
}

/// Position `j` of row `n` lies in the square house that covers it.
pub proof fn lemma_row_cell_in_square(n: int, j: int)
    requires
        0 <= n < 9,
        0 <= j < 9,
    ensures
        house_index(0, n, j) == house_index(2, (n / 3) * 3 + j / 3, (n % 3) * 3 + j % 3),
{
    let s = (n / 3) * 3 + j / 3;
    let k = (n % 3) * 3 + j % 3;
    assert(s / 3 == n / 3 && s % 3 == j / 3) by (nonlinear_arith)
        requires
            0 <= n < 9 && 0 <= j < 9 && s == (n / 3) * 3 + j / 3,
    ;
    assert(k / 3 == n % 3 && k % 3 == j % 3) by (nonlinear_arith)
        requires
            0 <= n < 9 && 0 <= j < 9 && k == (n % 3) * 3 + j % 3,
    ;
    assert(house_row(2, s, k) == (n / 3) * 3 + n % 3);
    assert((n / 3) * 3 + n % 3 == n);
    assert(house_col(2, s, k) == (j / 3) * 3 + j % 3);
    assert((j / 3) * 3 + j % 3 == j);
}

/// Position `j` of column `n` lies in the square house that covers it.
pub proof fn lemma_col_cell_in_square(n: int, j: int)
    requires
        0 <= n < 9,
        0 <= j < 9,
    ensures
        house_index(1, n, j) == house_index(2, (j / 3) * 3 + n / 3, (j % 3) * 3 + n % 3),
{
    let s = (j / 3) * 3 + n / 3;
    let k = (j % 3) * 3 + n % 3;
    assert(s / 3 == j / 3 && s % 3 == n / 3) by (nonlinear_arith)
        requires
            0 <= n < 9 && 0 <= j < 9 && s == (j / 3) * 3 + n / 3,
    ;
    assert(k / 3 == j % 3 && k % 3 == n % 3) by (nonlinear_arith)
        requires
            0 <= n < 9 && 0 <= j < 9 && k == (j % 3) * 3 + n % 3,
    ;
    assert(house_row(2, s, k) == (j / 3) * 3 + j % 3);
    assert((j / 3) * 3 + j % 3 == j);
    assert(house_col(2, s, k) == (n / 3) * 3 + n % 3);
    assert((n / 3) * 3 + n % 3 == n);
}

// ---------------------------------------------------------------------------
// Grids as sequences of cells.
// ---------------------------------------------------------------------------
pub open spec fn grid_wf(g: Seq<Cell>) -> bool {
    g.len() == 81 && forall|i: int| 0 <= i < 81 ==> (#[trigger] g[i]).wf()
}

/// `c2` is at least as determined as `c1`: a determined cell is untouched,
/// an undetermined one either keeps a subset of its marks or becomes
/// determined to a value it still allowed.
pub open spec fn cell_refines(c2: Cell, c1: Cell) -> bool {
    if c1.is_det() {
        c2 == c1
    } else if c2.is_det() {
        1 <= c2.value <= 9 && c1.has(c2.value as int) && c2.possibilities.bits == 0
    } else {
        c2.value == 0 && c1.value == 0 && forall|m: int| #[trigger] c2.has(m) ==> c1.has(m)
    }
}

pub open spec fn grid_refines(g2: Seq<Cell>, g1: Seq<Cell>) -> bool {
    g2.len() == 81 && g1.len() == 81 && forall|i: int|
        0 <= i < 81 ==> cell_refines(#[trigger] g2[i], #[trigger] g1[i])
}

/// A step that only turns undetermined cells into determined ones and
/// leaves every other cell untouched.
pub open spec fn cell_det_step(c2: Cell, c1: Cell) -> bool {
    c2 == c1 || (!c1.is_det() && c2.is_det() && 1 <= c2.value <= 9 && c1.has(c2.value as int)
        && c2.possibilities.bits == 0)
}

pub open spec fn det_step(g2: Seq<Cell>, g1: Seq<Cell>) -> bool {
    g2.len() == 81 && g1.len() == 81 && forall|i: int|
        0 <= i < 81 ==> cell_det_step(#[trigger] g2[i], #[trigger] g1[i])
}

/// A step that only removes marks and never changes a cell's value.
pub open spec fn cell_elim(c2: Cell, c1: Cell) -> bool {
    c2.value == c1.value && forall|m: int| #[trigger] c2.has(m) ==> c1.has(m)
}

pub open spec fn elim_step(g2: Seq<Cell>, g1: Seq<Cell>) -> bool {
    g2.len() == 81 && g1.len() == 81 && forall|i: int|
        0 <= i < 81 ==> cell_elim(#[trigger] g2[i], #[trigger] g1[i])
}

pub proof fn lemma_det_step_refines(g2: Seq<Cell>, g1: Seq<Cell>)
    requires
        det_step(g2, g1),
    ensures
        grid_refines(g2, g1),
{
    assert forall|i: int| 0 <= i < 81 implies cell_refines(#[trigger] g2[i], #[trigger] g1[i]) by {
        assert(cell_det_step(g2[i], g1[i]));
    }
}

pub proof fn lemma_elim_step_refines(g2: Seq<Cell>, g1: Seq<Cell>)
    requires
        elim_step(g2, g1),
        grid_wf(g1),
        grid_wf(g2),
    ensures
        grid_refines(g2, g1),
{
    assert forall|i: int| 0 <= i < 81 implies cell_refines(#[trigger] g2[i], #[trigger] g1[i]) by {
        assert(cell_elim(g2[i], g1[i]));
        if g1[i].is_det() {
            assert(g2[i].possibilities.bits == 0 && g1[i].possibilities.bits == 0);
        }
    }
}

/// Monotonicity of refinement: every mark still possible after a
/// refining step was possible before it; no step ever adds a candidate
/// back.
pub proof fn lemma_refines_no_new_marks(g2: Seq<Cell>, g1: Seq<Cell>, i: int, m: int)
    requires
        grid_refines(g2, g1),
        0 <= i < 81,
        g2[i].has(m),
    ensures
        g1[i].has(m),
{
    assert(cell_refines(g2[i], g1[i]));
    if !g1[i].is_det() && g2[i].is_det() {
        crate::possibility::lemma_empty_mask(m);
    }
}

pub proof fn lemma_det_step_trans(g3: Seq<Cell>, g2: Seq<Cell>, g1: Seq<Cell>)
    requires
        det_step(g3, g2),
        det_step(g2, g1),
    ensures
        det_step(g3, g1),
{
    assert forall|i: int| 0 <= i < 81 implies cell_det_step(#[trigger] g3[i], #[trigger] g1[i]) by {
        assert(cell_det_step(g3[i], g2[i]) && cell_det_step(g2[i], g1[i]));
    }
}

pub proof fn lemma_elim_step_trans(g3: Seq<Cell>, g2: Seq<Cell>, g1: Seq<Cell>)
    requires
        elim_step(g3, g2),
        elim_step(g2, g1),
    ensures
        elim_step(g3, g1),
{
    assert forall|i: int| 0 <= i < 81 implies cell_elim(#[trigger] g3[i], #[trigger] g1[i]) by {
        assert(cell_elim(g3[i], g2[i]) && cell_elim(g2[i], g1[i]));
    }
}

pub proof fn lemma_grid_refines_trans(g3: Seq<Cell>, g2: Seq<Cell>, g1: Seq<Cell>)
    requires
        grid_refines(g3, g2),
        grid_refines(g2, g1),
    ensures
        grid_refines(g3, g1),
{
    assert forall|i: int| 0 <= i < 81 implies cell_refines(#[trigger] g3[i], #[trigger] g1[i]) by {
        assert(cell_refines(g3[i], g2[i]) && cell_refines(g2[i], g1[i]));
    }
}

pub proof fn lemma_grid_refines_antisym(g2: Seq<Cell>, g1: Seq<Cell>)
    requires
        grid_refines(g2, g1),
        grid_refines(g1, g2),
        grid_wf(g1),
        grid_wf(g2),
    ensures
        g1 == g2,
{
    assert forall|i: int| 0 <= i < 81 implies g1[i] == g2[i] by {
        assert(cell_refines(g2[i], g1[i]) && cell_refines(g1[i], g2[i]));
        let c1 = g1[i];
        let c2 = g2[i];
        if !c1.is_det() && !c2.is_det() {
            assert forall|k: int|
                1 <= k <= 9 implies (crate::possibility::mask_has(c1.possibilities.bits, k)
                <==> crate::possibility::mask_has(c2.possibilities.bits, k)) by {
                if c1.has(k) {
                    assert(c2.has(k));
                }
                if c2.has(k) {
                    assert(c1.has(k));
                }
            }
            lemma_mask_ext(c1.possibilities.bits, c2.possibilities.bits);
        }
    }
    assert(g1 =~= g2);
}

/// Chaining one more monotone step keeps the "changed iff different"
/// book-keeping exact.
pub proof fn lemma_change_step(
    g0: Seq<Cell>,
    g1: Seq<Cell>,
    g2: Seq<Cell>,
    c: bool,
    r: bool,
)
    requires
        grid_wf(g0),
        grid_wf(g1),
        grid_wf(g2),
        grid_refines(g1, g0),
        grid_refines(g2, g1),
        c <==> (g1 != g0),
        r <==> (g2 != g1),
    ensures
        grid_refines(g2, g0),
        (c || r) <==> (g2 != g0),
{
    lemma_grid_refines_trans(g2, g1, g0);
    if c && g2 == g0 {
        lemma_grid_refines_antisym(g1, g0);
    }
    if r && g2 == g0 {
        lemma_grid_refines_antisym(g1, g0);
        lemma_grid_refines_antisym(g2, g1);
    }
}

// ---------------------------------------------------------------------------
// Solutions and soundness.
// ---------------------------------------------------------------------------
/// Every pair of positions of house (t, n) carries distinct values.
pub open spec fn house_distinct(s: Seq<u8>, t: int, n: int) -> bool {
    forall|j: int, k: int|
        0 <= j < 9 && 0 <= k < 9 && j != k ==> #[trigger] s[house_index(t, n, j)]
            != #[trigger] s[house_index(t, n, k)]
}

/// Value `v` occurs somewhere in house (t, n).
pub open spec fn house_contains(s: Seq<u8>, t: int, n: int, v: int) -> bool {
    exists|k: int| 0 <= k < 9 && #[trigger] s[house_index(t, n, k)] == v
}

/// A complete assignment of 1..=9 to all 81 cells that satisfies every
/// house: all values distinct, hence each value present once.
pub open spec fn valid_solution(s: Seq<u8>) -> bool {
    &&& s.len() == 81
    &&& forall|i: int| 0 <= i < 81 ==> 1 <= #[trigger] s[i] <= 9
    &&& forall|t: int, n: int| 0 <= t < 3 && 0 <= n < 9 ==> #[trigger] house_distinct(s, t, n)
    &&& forall|t: int, n: int, v: int|
        0 <= t < 3 && 0 <= n < 9 && 1 <= v <= 9 ==> #[trigger] house_contains(s, t, n, v)
}

pub open spec fn cell_consistent(v: u8, c: Cell) -> bool {
    if c.is_det() {
        c.value == v
    } else {
        c.has(v as int)
    }
}

/// The assignment `s` is still allowed by the grid: it matches every
/// determined cell and is still marked possible in every undetermined one.
pub open spec fn consistent(s: Seq<u8>, g: Seq<Cell>) -> bool {
    s.len() == 81 && g.len() == 81 && forall|i: int|
        0 <= i < 81 ==> cell_consistent(s[i], #[trigger] g[i])
}

/// Pigeonhole for one house: nine pairwise distinct values drawn from
/// 1..=9 must include every value once.
pub proof fn lemma_distinct_house_contains(s: Seq<u8>, t: int, n: int)
    requires
        s.len() == 81,
        forall|i: int| 0 <= i < 81 ==> 1 <= #[trigger] s[i] <= 9,
        house_distinct(s, t, n),
        0 <= t < 3,
        0 <= n < 9,
    ensures
        forall|v: int| 1 <= v <= 9 ==> #[trigger] house_contains(s, t, n, v),
{
    let vs = Seq::new(9, |k: int| s[house_index(t, n, k)] as int);
    assert(vs.no_duplicates()) by {
        assert forall|i: int, j: int|
            0 <= i < 9 && 0 <= j < 9 && i != j implies vs[i] != vs[j] by {
            lemma_house_bounds(t, n, i);
            lemma_house_bounds(t, n, j);
            assert(s[house_index(t, n, i)] != s[house_index(t, n, j)]);
        }
    }
    vs.unique_seq_to_set();
    vstd::seq_lib::seq_to_set_is_finite::<int>(vs);
    assert(vs.to_set().subset_of(vstd::set_lib::set_int_range(1, 10))) by {
        assert forall|x: int|
            vs.to_set().contains(x) implies vstd::set_lib::set_int_range(1, 10).contains(x) by {
            let i = choose|i: int| 0 <= i < vs.len() && vs[i] == x;
            lemma_house_bounds(t, n, i);
            assert(1 <= s[house_index(t, n, i)] <= 9);
        }
    }
    vstd::set_lib::lemma_int_range(1, 10);
    vstd::set_lib::lemma_subset_equality(vs.to_set(), vstd::set_lib::set_int_range(1, 10));
    assert forall|v: int| 1 <= v <= 9 implies #[trigger] house_contains(s, t, n, v) by {
        assert(vstd::set_lib::set_int_range(1, 10).contains(v));
        assert(vs.to_set().contains(v));
        assert(vs.contains(v));
        let k = choose|k: int| 0 <= k < vs.len() && vs[k] == v;
        assert(s[house_index(t, n, k)] == v);
    }
}

// ---------------------------------------------------------------------------
// The deduction conditions the strategies act on.
// ---------------------------------------------------------------------------
/// Cell `c` rules out placing `m` elsewhere: it either holds `m` already or
/// still allows it.
pub open spec fn blocks(c: Cell, m: int) -> bool {
    (c.is_det() && c.value as int == m) || (!c.is_det() && c.has(m))
}

/// Within house (t, n), no position other than `i` can take mark `m`.
pub open spec fn only_possible_at(g: Seq<Cell>, t: int, n: int, m: int, i: int) -> bool {
    forall|j: int| 0 <= j < 9 && j != i ==> !blocks(#[trigger] g[house_index(t, n, j)], m)
}

/// Position `i` of house (t, n) is an undetermined cell that still allows
/// `m`, and no other position of the house can take `m`: the strategy must
/// set it.
pub open spec fn naked_single(g: Seq<Cell>, t: int, n: int, i: int, m: int) -> bool {
    &&& 0 <= t < 3
    &&& 0 <= n < 9
    &&& 0 <= i < 9
    &&& 1 <= m <= 9
    &&& !g[house_index(t, n, i)].is_det()
    &&& g[house_index(t, n, i)].has(m)
    &&& only_possible_at(g, t, n, m, i)
}

pub open spec fn no_naked_single(g: Seq<Cell>) -> bool {
    forall|t: int, n: int, i: int, m: int| !#[trigger] naked_single(g, t, n, i, m)
}

/// Every naked single of `g0` in house (t, n) has been turned into a
/// determined cell in `g`.
pub open spec fn house_done(g0: Seq<Cell>, g: Seq<Cell>, t: int, n: int) -> bool {
    forall|i: int, m: int|
        #[trigger] naked_single(g0, t, n, i, m) ==> g[house_index(t, n, i)].is_det()
}

/// Mark `m` is possible in house (t, n) only at positions of third `q`.
pub open spec fn confined(g: Seq<Cell>, t: int, n: int, m: int, q: int) -> bool {
    forall|j: int| 0 <= j < 9 && j / 3 != q ==> !(#[trigger] g[house_index(t, n, j)]).has(m)
}

pub open spec fn possible_in_house(g: Seq<Cell>, t: int, n: int, m: int) -> bool {
    exists|j: int| 0 <= j < 9 && (#[trigger] g[house_index(t, n, j)]).has(m)
}

/// The value of a determined cell of house (t, n) is no longer marked
/// possible anywhere else in the house.
pub open spec fn area_consistent(g: Seq<Cell>, t: int, n: int) -> bool {
    forall|j: int, k: int|
        0 <= j < 9 && 0 <= k < 9 && j != k && (#[trigger] g[house_index(t, n, j)]).is_det()
            ==> !(#[trigger] g[house_index(t, n, k)]).has(g[house_index(t, n, j)].value as int)
}

/// Every house is area-consistent: determined values are pruned from all
/// their peers.
pub open spec fn pruned(g: Seq<Cell>) -> bool {
    forall|t: int, n: int| 0 <= t < 3 && 0 <= n < 9 ==> #[trigger] area_consistent(g, t, n)
}

// ---------------------------------------------------------------------------
// Soundness of the three deduction steps: none of them can rule out a
// valid completion of the grid.
// ---------------------------------------------------------------------------
/// If no position but `i` of a house can take `m`, every valid completion
/// places `m` at `i`.
pub proof fn lemma_hidden_single_sound(
    s: Seq<u8>,
    g: Seq<Cell>,
    t: int,
    n: int,
    m: int,
    i: int,
)
    requires
        valid_solution(s),
        consistent(s, g),
        0 <= t < 3,
        0 <= n < 9,
        0 <= i < 9,
        1 <= m <= 9,
        only_possible_at(g, t, n, m, i),
    ensures
        s[house_index(t, n, i)] == m,
{
    assert(house_contains(s, t, n, m));
    let k = choose|k: int| 0 <= k < 9 && #[trigger] s[house_index(t, n, k)] == m;
    lemma_house_bounds(t, n, k);
    lemma_house_bounds(t, n, i);
    if k != i {
        assert(cell_consistent(s[house_index(t, n, k)], g[house_index(t, n, k)]));
        assert(blocks(g[house_index(t, n, k)], m));
        assert(!blocks(g[house_index(t, n, k)], m));
    }
}

/// A determined value cannot recur at a peer position in any valid
/// completion.
pub proof fn lemma_peer_sound(s: Seq<u8>, g: Seq<Cell>, t: int, n: int, j: int, k: int)
    requires
        valid_solution(s),
        consistent(s, g),
        0 <= t < 3,
        0 <= n < 9,
        0 <= j < 9,
        0 <= k < 9,
        j != k,
        g[house_index(t, n, j)].is_det(),
    ensures
        s[house_index(t, n, k)] != g[house_index(t, n, j)].value,
{
    lemma_house_bounds(t, n, j);
    lemma_house_bounds(t, n, k);
    assert(cell_consistent(s[house_index(t, n, j)], g[house_index(t, n, j)]));
    assert(house_distinct(s, t, n));
    assert(s[house_index(t, n, j)] != s[house_index(t, n, k)]);
}

/// The locked-candidate elimination is sound: if, in a pruned check line
/// (row or column) `nc`, mark `m` is possible only within third `q`, then
/// no valid completion places `m` in the same square on another line `no`
/// of the band.
pub proof fn lemma_locked_sound(
    s: Seq<u8>,
    g: Seq<Cell>,
    t: int,
    nc: int,
    no: int,
    q: int,
    m: int,
    p: int,
)
    requires
        valid_solution(s),
        consistent(s, g),
        grid_wf(g),
        t == 0 || t == 1,
        0 <= nc < 9,
        0 <= no < 9,
        nc != no,
        nc / 3 == no / 3,
        1 <= m <= 9,
        0 <= q < 3,
        3 * q <= p < 3 * q + 3,
        area_consistent(g, t, nc),
        possible_in_house(g, t, nc, m),
        confined(g, t, nc, m, q),
    ensures
        s[house_index(t, no, p)] != m,
{
    let j0 = choose|j: int| 0 <= j < 9 && (#[trigger] g[house_index(t, nc, j)]).has(m);
    assert(house_contains(s, t, nc, m));
    let k = choose|k: int| 0 <= k < 9 && #[trigger] s[house_index(t, nc, k)] == m;
    lemma_house_bounds(t, nc, k);
    lemma_house_bounds(t, nc, j0);
    lemma_house_bounds(t, no, p);
    // The solution's occurrence of m in the check line sits in an
    // undetermined cell, hence (confined) within third q.
    if g[house_index(t, nc, k)].is_det() {
        assert(cell_consistent(s[house_index(t, nc, k)], g[house_index(t, nc, k)]));
        assert(g[house_index(t, nc, k)].value as int == m);
        if j0 == k {
            assert(g[house_index(t, nc, k)].possibilities.bits == 0);
            lemma_empty_mask(m);
        } else {
            assert(!g[house_index(t, nc, j0)].has(g[house_index(t, nc, k)].value as int));
        }
    }
    assert(!g[house_index(t, nc, k)].is_det());
    assert(cell_consistent(s[house_index(t, nc, k)], g[house_index(t, nc, k)]));
    assert(g[house_index(t, nc, k)].has(m));
    assert(k / 3 == q);
    // Both that cell and the target cell lie in the same square house.
    assert(p / 3 == q);
    if s[house_index(t, no, p)] == m {
        if t == 0 {
            lemma_row_cell_in_square(nc, k);
            lemma_row_cell_in_square(no, p);
            let sq = (nc / 3) * 3 + k / 3;
            let k1 = (nc % 3) * 3 + k % 3;
            let k2 = (no % 3) * 3 + p % 3;
            assert((no / 3) * 3 + p / 3 == sq);
            assert(nc % 3 != no % 3);
            assert(k1 != k2);
            assert(0 <= sq < 9 && 0 <= k1 < 9 && 0 <= k2 < 9);
            assert(house_distinct(s, 2, sq));
            assert(s[house_index(2, sq, k1)] != s[house_index(2, sq, k2)]);
        } else {
            lemma_col_cell_in_square(nc, k);
            lemma_col_cell_in_square(no, p);
            let sq = (k / 3) * 3 + nc / 3;
            let k1 = (k % 3) * 3 + nc % 3;
            let k2 = (p % 3) * 3 + no % 3;
            assert((p / 3) * 3 + no / 3 == sq);
            assert(nc % 3 != no % 3);
            assert(k1 != k2);
            assert(0 <= sq < 9 && 0 <= k1 < 9 && 0 <= k2 < 9);
            assert(house_distinct(s, 2, sq));
            assert(s[house_index(2, sq, k1)] != s[house_index(2, sq, k2)]);
        }
    }
}

// ---------------------------------------------------------------------------
// Stability: facts established against an earlier grid survive the
// monotone steps that follow.
// ---------------------------------------------------------------------------
/// A naked single survives a determination step that left its cell alone.
pub proof fn lemma_naked_single_stable(
    g0: Seq<Cell>,
    g1: Seq<Cell>,
    t: int,
    n: int,
    i: int,
    m: int,
)
    requires
        det_step(g1, g0),
        naked_single(g0, t, n, i, m),
        !g1[house_index(t, n, i)].is_det(),
    ensures
        naked_single(g1, t, n, i, m),
{
    lemma_house_bounds(t, n, i);
    assert(cell_det_step(g1[house_index(t, n, i)], g0[house_index(t, n, i)]));
    assert(g1[house_index(t, n, i)] == g0[house_index(t, n, i)]);
    assert forall|j: int| 0 <= j < 9 && j != i implies !blocks(
        #[trigger] g1[house_index(t, n, j)],
        m,
    ) by {
        lemma_house_bounds(t, n, j);
        assert(cell_det_step(g1[house_index(t, n, j)], g0[house_index(t, n, j)]));
        assert(!blocks(g0[house_index(t, n, j)], m));
    }
}

pub proof fn lemma_house_done_mono(g0: Seq<Cell>, g1: Seq<Cell>, g2: Seq<Cell>, t: int, n: int)
    requires
        house_done(g0, g1, t, n),
        grid_refines(g2, g1),
        0 <= t < 3,
        0 <= n < 9,
    ensures
        house_done(g0, g2, t, n),
{
    assert forall|i: int, m: int| #[trigger] naked_single(g0, t, n, i, m) implies g2[house_index(
        t,
        n,
        i,
    )].is_det() by {
        lemma_house_bounds(t, n, i);
        assert(g1[house_index(t, n, i)].is_det());
        assert(cell_refines(g2[house_index(t, n, i)], g1[house_index(t, n, i)]));
    }
}

/// A house processed against an intermediate grid is also done with
/// respect to the grid the whole pass started from.
pub proof fn lemma_house_done_lift(g0: Seq<Cell>, g1: Seq<Cell>, g2: Seq<Cell>, t: int, n: int)
    requires
        det_step(g1, g0),
        house_done(g1, g2, t, n),
        grid_refines(g2, g1),
        0 <= t < 3,
        0 <= n < 9,
    ensures
        house_done(g0, g2, t, n),
{
    assert forall|i: int, m: int| #[trigger] naked_single(g0, t, n, i, m) implies g2[house_index(
        t,
        n,
        i,
    )].is_det() by {
        lemma_house_bounds(t, n, i);
        if g1[house_index(t, n, i)].is_det() {
            assert(cell_refines(g2[house_index(t, n, i)], g1[house_index(t, n, i)]));
        } else {
            lemma_naked_single_stable(g0, g1, t, n, i, m);
            assert(naked_single(g1, t, n, i, m));
        }
    }
}

pub proof fn lemma_area_consistent_stable(g1: Seq<Cell>, g2: Seq<Cell>, t: int, n: int)
    requires
        area_consistent(g1, t, n),
        elim_step(g2, g1),
        0 <= t < 3,
        0 <= n < 9,
    ensures
        area_consistent(g2, t, n),
{
    assert forall|j: int, k: int|
        0 <= j < 9 && 0 <= k < 9 && j != k && (#[trigger] g2[house_index(t, n, j)]).is_det()
        implies !(#[trigger] g2[house_index(t, n, k)]).has(
        g2[house_index(t, n, j)].value as int,
    ) by {
        lemma_house_bounds(t, n, j);
        lemma_house_bounds(t, n, k);
        assert(cell_elim(g2[house_index(t, n, j)], g1[house_index(t, n, j)]));
        assert(cell_elim(g2[house_index(t, n, k)], g1[house_index(t, n, k)]));
        assert(g1[house_index(t, n, j)].is_det());
        if g2[house_index(t, n, k)].has(g2[house_index(t, n, j)].value as int) {
            assert(g1[house_index(t, n, k)].has(g1[house_index(t, n, j)].value as int));
        }
    }
}

pub proof fn lemma_pruned_stable(g1: Seq<Cell>, g2: Seq<Cell>)
    requires
        pruned(g1),
        elim_step(g2, g1),
    ensures
        pruned(g2),
{
    assert forall|t: int, n: int| 0 <= t < 3 && 0 <= n < 9 implies #[trigger] area_consistent(
        g2,
        t,
        n,
    ) by {
        assert(area_consistent(g1, t, n));
        lemma_area_consistent_stable(g1, g2, t, n);
    }
}

// ---------------------------------------------------------------------------
// The decreasing potential: total number of marks plus number of
// undetermined cells.  Every proper monotone step strictly lowers it,
// which bounds the orchestrator's fixed-point iteration.
// ---------------------------------------------------------------------------
pub open spec fn count_from(c: Cell, m: int) -> nat
    decreases 10 - m,
{
    if m >= 10 || m < 1 {
        0
    } else {
        (if c.has(m) {
            1nat
        } else {
            0nat
        }) + count_from(c, m + 1)
    }
}

pub open spec fn cell_weight(c: Cell) -> nat {
    count_from(c, 1) + (if c.is_det() {
        0nat
    } else {
        1nat
    })
}

pub open spec fn weight_from(g: Seq<Cell>, i: int) -> nat
    decreases 81 - i,
{
    if i >= 81 || i < 0 {
        0
    } else {
        cell_weight(g[i]) + weight_from(g, i + 1)
    }
}

pub open spec fn grid_weight(g: Seq<Cell>) -> nat {
    weight_from(g, 0)
}

proof fn lemma_count_mono(c1: Cell, c2: Cell, m: int)
    requires
        forall|k: int| #[trigger] c2.has(k) ==> c1.has(k),
    ensures
        count_from(c2, m) <= count_from(c1, m),
    decreases 10 - m,
{
    if m < 10 && m >= 1 {
        lemma_count_mono(c1, c2, m + 1);
    }
}

proof fn lemma_count_empty(c: Cell, m: int)
    requires
        forall|k: int| !(#[trigger] c.has(k)),
    ensures
        count_from(c, m) == 0,
    decreases 10 - m,
{
    if m < 10 && m >= 1 {
        lemma_count_empty(c, m + 1);
    }
}

proof fn lemma_count_strict(c1: Cell, c2: Cell, m: int, w: int)
    requires
        forall|k: int| #[trigger] c2.has(k) ==> c1.has(k),
        c1.has(w),
        !c2.has(w),
        1 <= m,
        m <= w <= 9,
    ensures
        count_from(c2, m) < count_from(c1, m),
    decreases 10 - m,
{
    if m == w {
        lemma_count_mono(c1, c2, m + 1);
    } else {
        lemma_count_strict(c1, c2, m + 1, w);
    }
}

proof fn lemma_cell_weight_mono(c2: Cell, c1: Cell)
    requires
        cell_refines(c2, c1),
        c1.wf(),
        c2.wf(),
    ensures
        cell_weight(c2) <= cell_weight(c1),
{
    if c1.is_det() {
    } else if c2.is_det() {
        assert forall|k: int| !(#[trigger] c2.has(k)) by {
            lemma_empty_mask(k);
        }
        lemma_count_empty(c2, 1);
    } else {
        lemma_count_mono(c1, c2, 1);
    }
}

proof fn lemma_cell_weight_strict(c2: Cell, c1: Cell)
    requires
        cell_refines(c2, c1),
        c1.wf(),
        c2.wf(),
        c2 != c1,
    ensures
        cell_weight(c2) < cell_weight(c1),
{
    if c1.is_det() {
        assert(false);
    } else if c2.is_det() {
        assert forall|k: int| !(#[trigger] c2.has(k)) by {
            lemma_empty_mask(k);
        }
        lemma_count_empty(c2, 1);
        assert(count_from(c1, 1) >= 0);
        assert(cell_weight(c1) >= 1);
    } else {
        // Both undetermined with equal values: the masks must differ, and
        // only by removal.
        if forall|k: int| 1 <= k <= 9 ==> (#[trigger] c1.has(k) <==> c2.has(k)) {
            assert forall|k: int|
                1 <= k <= 9 implies (crate::possibility::mask_has(c1.possibilities.bits, k)
                <==> crate::possibility::mask_has(c2.possibilities.bits, k)) by {
                assert(c1.has(k) <==> c2.has(k));
            }
            lemma_mask_ext(c1.possibilities.bits, c2.possibilities.bits);
            assert(c1 == c2);
        }
        let w = choose|k: int| 1 <= k <= 9 && !(#[trigger] c1.has(k) <==> c2.has(k));
        assert(c1.has(w) && !c2.has(w));
        lemma_count_strict(c1, c2, 1, w);
        assert(cell_weight(c2) < cell_weight(c1));
    }
}

proof fn lemma_weight_from_mono(g2: Seq<Cell>, g1: Seq<Cell>, i: int)
    requires
        grid_refines(g2, g1),
        grid_wf(g1),
        grid_wf(g2),
    ensures
        weight_from(g2, i) <= weight_from(g1, i),
    decreases 81 - i,
{
    if 0 <= i < 81 {
        lemma_cell_weight_mono(g2[i], g1[i]);
        lemma_weight_from_mono(g2, g1, i + 1);
    }
}

proof fn lemma_weight_from_strict(g2: Seq<Cell>, g1: Seq<Cell>, i: int, j: int)
    requires
        grid_refines(g2, g1),
        grid_wf(g1),
        grid_wf(g2),
        0 <= i <= j < 81,
        g2[j] != g1[j],
    ensures
        weight_from(g2, i) < weight_from(g1, i),
    decreases 81 - i,
{
    if i == j {
        lemma_cell_weight_strict(g2[i], g1[i]);
        lemma_weight_from_mono(g2, g1, i + 1);
    } else {
        lemma_cell_weight_mono(g2[i], g1[i]);
        lemma_weight_from_strict(g2, g1, i + 1, j);
    }
}

/// A proper monotone step strictly lowers the potential.
pub proof fn lemma_grid_weight_decrease(g2: Seq<Cell>, g1: Seq<Cell>)
    requires
        grid_refines(g2, g1),
        grid_wf(g1),
        grid_wf(g2),
        g2 != g1,
    ensures
        grid_weight(g2) < grid_weight(g1),
{
    assert(exists|j: int| 0 <= j < 81 && g2[j] != g1[j]) by {
        if forall|j: int| 0 <= j < 81 ==> g2[j] == g1[j] {
            assert(g2 =~= g1);
        }
    }
    let j = choose|j: int| 0 <= j < 81 && g2[j] != g1[j];
    lemma_weight_from_strict(g2, g1, 0, j);
}

// ---------------------------------------------------------------------------
// Spec-level cell constructors, and what a solved grid is.
// ---------------------------------------------------------------------------
/// The cell `c` with mark `m` removed (a no-op on a determined cell,
/// whose mask is already empty).
pub open spec fn cell_unset(c: Cell, m: int) -> Cell {
    Cell {
        value: c.value,
        possibilities: Possibility { bits: c.possibilities.bits & !(1u16 << (m - 1) as u16) },
    }
}

pub proof fn lemma_cell_unset(c: Cell, m: int)
    requires
        c.wf(),
        1 <= m <= 9,
    ensures
        cell_unset(c, m).wf(),
        cell_unset(c, m).value == c.value,
        cell_unset(c, m).is_det() == c.is_det(),
        forall|k: int| 1 <= k <= 9 ==> (#[trigger] cell_unset(c, m).has(k) <==> (c.has(k) && k
            != m)),
        c.has(m) ==> cell_unset(c, m) != c,
        !c.has(m) ==> cell_unset(c, m) == c,
        cell_elim(cell_unset(c, m), c),
{
    let b = c.possibilities.bits;
    crate::possibility::lemma_mask_unset(b, m);
    let c2 = cell_unset(c, m);
    if c.is_det() {
        crate::possibility::lemma_empty_mask(m);
    }
    if !c.has(m) {
        assert forall|k: int|
            1 <= k <= 9 implies (crate::possibility::mask_has(c2.possibilities.bits, k) <==>
        crate::possibility::mask_has(b, k)) by {}
        lemma_mask_ext(c2.possibilities.bits, b);
    }
    assert forall|k: int| #[trigger] c2.has(k) implies c.has(k) by {}
}

pub open spec fn det_cell(v: u8) -> Cell {
    Cell { value: v, possibilities: Possibility { bits: 0 } }
}

pub open spec fn full_cell() -> Cell {
    Cell { value: 0, possibilities: Possibility { bits: 0x1ff } }
}

/// An undetermined cell restricted to the single candidate `v`.
pub open spec fn singleton_cell(v: u8) -> Cell {
    Cell { value: 0, possibilities: Possibility { bits: 1u16 << ((v - 1) as u16) } }
}

pub open spec fn values_of(g: Seq<Cell>) -> Seq<u8> {
    Seq::new(81, |i: int| g[i].value)
}

/// Fully determined, well formed, and the values satisfy every house.
pub open spec fn solved_grid(g: Seq<Cell>) -> bool {
    &&& grid_wf(g)
    &&& forall|i: int| 0 <= i < 81 ==> (#[trigger] g[i]).is_det()
    &&& valid_solution(values_of(g))
}

} // verus!
