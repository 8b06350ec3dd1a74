//! Zhang-Suen skeletonisation of a padded boolean grid.
use vstd::prelude::*;
use crate::grid::{FlatGrid, interior, col, row, count_true, lemma_col_row, lemma_count_true_shrinks};

verus! {

/// Neighbours of cell `i` in Zhang-Suen numbering: `p2` is north, then
/// clockwise up to `p9` in the north-west.
pub open spec fn p2(g: Seq<bool>, w: int, i: int) -> bool { g[i - w] }
pub open spec fn p3(g: Seq<bool>, w: int, i: int) -> bool { g[i - w + 1] }
pub open spec fn p4(g: Seq<bool>, w: int, i: int) -> bool { g[i + 1] }
pub open spec fn p5(g: Seq<bool>, w: int, i: int) -> bool { g[i + w + 1] }
pub open spec fn p6(g: Seq<bool>, w: int, i: int) -> bool { g[i + w] }
pub open spec fn p7(g: Seq<bool>, w: int, i: int) -> bool { g[i + w - 1] }
pub open spec fn p8(g: Seq<bool>, w: int, i: int) -> bool { g[i - 1] }
pub open spec fn p9(g: Seq<bool>, w: int, i: int) -> bool { g[i - w - 1] }

/// One for a set cell, zero otherwise.
pub open spec fn bit(b: bool) -> int {
    if b { 1 } else { 0 }
}

/// Number of set neighbours of cell `i`.
pub open spec fn zs_black(g: Seq<bool>, w: int, i: int) -> int {
    bit(p2(g, w, i)) + bit(p3(g, w, i)) + bit(p4(g, w, i)) + bit(p5(g, w, i)) + bit(p6(g, w, i))
        + bit(p7(g, w, i)) + bit(p8(g, w, i)) + bit(p9(g, w, i))
}

/// One when the neighbour after an unset one is set.
pub open spec fn rise(a: bool, b: bool) -> int {
    if !a && b { 1 } else { 0 }
}

/// Number of unset-to-set transitions around the neighbourhood of `i`.
pub open spec fn zs_transitions(g: Seq<bool>, w: int, i: int) -> int {
    rise(p2(g, w, i), p3(g, w, i)) + rise(p3(g, w, i), p4(g, w, i)) + rise(p4(g, w, i), p5(g, w, i))
        + rise(p5(g, w, i), p6(g, w, i)) + rise(p6(g, w, i), p7(g, w, i)) + rise(p7(g, w, i), p8(g, w, i))
        + rise(p8(g, w, i), p9(g, w, i)) + rise(p9(g, w, i), p2(g, w, i))
}

/// Cell `i` is removed by sub-pass `pass` (1 or 2) of Zhang-Suen thinning.
pub open spec fn zs_candidate(g: Seq<bool>, w: int, h: int, i: int, pass: int) -> bool {
    &&& interior(w, h, i)
    &&& g[i]
    &&& 2 <= zs_black(g, w, i) <= 6
    &&& zs_transitions(g, w, i) == 1
    &&& if pass == 1 {
        !(p2(g, w, i) && p4(g, w, i) && p6(g, w, i)) && !(p4(g, w, i) && p6(g, w, i) && p8(g, w, i))
    } else {
        !(p2(g, w, i) && p4(g, w, i) && p8(g, w, i)) && !(p2(g, w, i) && p6(g, w, i) && p8(g, w, i))
    }
}

/// One sub-pass: every candidate, judged on the grid as it stood before the
/// sub-pass, is cleared at once.
pub open spec fn zs_sub_pass(g: Seq<bool>, w: int, h: int, pass: int) -> Seq<bool> {
    Seq::new(g.len(), |i: int| g[i] && !zs_candidate(g, w, h, i, pass))
}

/// One full iteration: sub-pass 1 followed by sub-pass 2.
pub open spec fn zs_iteration(g: Seq<bool>, w: int, h: int) -> Seq<bool> {
    zs_sub_pass(zs_sub_pass(g, w, h, 1), w, h, 2)
}

/// Iterations only ever clear cells; when they change anything, the number
/// of set cells drops.
pub proof fn lemma_iteration_shrinks(g: Seq<bool>, w: int, h: int)
    ensures
        zs_iteration(g, w, h).len() == g.len(),
        forall|i: int| 0 <= i < g.len() && #[trigger] zs_iteration(g, w, h)[i] ==> g[i],
        count_true(zs_iteration(g, w, h)) <= count_true(g),
        zs_iteration(g, w, h) != g ==> count_true(zs_iteration(g, w, h)) < count_true(g),
{
    let s1 = zs_sub_pass(g, w, h, 1);
    let s2 = zs_sub_pass(s1, w, h, 2);
    assert forall|i: int| 0 <= i < g.len() && #[trigger] s2[i] implies g[i] by {
        assert(s1[i]);
    }
    if s2 != g {
        assert(!(s2 =~= g));
        let i = choose|i: int| 0 <= i < g.len() && s2[i] != g[i];
        assert(g[i] && !s2[i]);
    }
    lemma_count_true_shrinks(g, s2);
}

/// The grid that Zhang-Suen thinning converges to: iterations are repeated
/// until one leaves the grid unchanged.
pub open spec fn zs_thinned(g: Seq<bool>, w: int, h: int) -> Seq<bool>
    decreases count_true(g),
{
    let next = zs_iteration(g, w, h);
    if next == g {
        g
    } else {
        proof {
            lemma_iteration_shrinks(g, w, h);
        }
        zs_thinned(next, w, h)
    }
}

/// Thinning only clears cells: the thinned grid has the same size, and
/// every cell set in it was set before.
pub proof fn law_thinning_only_clears(g: Seq<bool>, w: int, h: int)
    ensures
        zs_thinned(g, w, h).len() == g.len(),
        forall|i: int| 0 <= i < g.len() && #[trigger] zs_thinned(g, w, h)[i] ==> g[i],
    decreases count_true(g),
{
    let next = zs_iteration(g, w, h);
    lemma_iteration_shrinks(g, w, h);
    if next != g {
        law_thinning_only_clears(next, w, h);
    }
}

/// Thinning never changes a cell on the border of the grid.
pub proof fn law_thinning_keeps_border(g: Seq<bool>, w: int, h: int)
    ensures
        forall|i: int| 0 <= i < g.len() && !interior(w, h, i) ==> #[trigger] zs_thinned(g, w, h)[i] == g[i],
    decreases count_true(g),
{
    let next = zs_iteration(g, w, h);
    let s1 = zs_sub_pass(g, w, h, 1);
    lemma_iteration_shrinks(g, w, h);
    assert forall|i: int| 0 <= i < g.len() && !interior(w, h, i) implies #[trigger] next[i] == g[i] by {
        assert(s1[i] == g[i]);
    }
    if next != g {
        law_thinning_keeps_border(next, w, h);
        assert(zs_thinned(g, w, h) == zs_thinned(next, w, h));
        assert forall|i: int| 0 <= i < g.len() && !interior(w, h, i) implies #[trigger] zs_thinned(g, w, h)[i] == g[i] by {
            assert(zs_thinned(next, w, h)[i] == next[i]);
        }
    }
}

/// Thinning runs to a fixed point: a further iteration of both sub-passes
/// leaves the thinned grid unchanged, so thinning it again changes nothing.
pub proof fn law_thinning_stable(g: Seq<bool>, w: int, h: int)
    ensures
        zs_iteration(zs_thinned(g, w, h), w, h) == zs_thinned(g, w, h),
        zs_thinned(zs_thinned(g, w, h), w, h) == zs_thinned(g, w, h),
    decreases count_true(g),
{
    let next = zs_iteration(g, w, h);
    if next != g {
        lemma_iteration_shrinks(g, w, h);
        law_thinning_stable(next, w, h);
    }
}

/// An interior cell has all eight neighbours inside the grid.
pub proof fn lemma_interior_neighbors(w: int, h: int, i: int)
    requires
        0 < w,
        0 <= i < w * h,
        interior(w, h, i),
    ensures
        w + 1 <= i,
        i + w + 1 < w * h,
{
    lemma_col_row(w, h, i);
    let x = col(w, i);
    let y = row(w, i);
    assert(w + 1 <= i && i + w + 1 < w * h) by (nonlinear_arith)
        requires
            i == y * w + x,
            1 <= x < w - 1,
            1 <= y < h - 1,
            0 < w,
    ;
}

/// Whether cell `i` is removed by sub-pass `pass` of the thinning.
pub fn zs_is_candidate(grid: &FlatGrid, i: usize, pass: u8) -> (b: bool)
    requires
        grid.wf(),
        grid.width >= 3,
        grid.height >= 3,
        i < grid.data@.len(),
    ensures
        b == zs_candidate(grid.data@, grid.width as int, grid.height as int, i as int, pass as int),
{
    let w = grid.width;
    let h = grid.height;
    let _n: usize = grid.data.len();
    let x = i % w;
    let y = i / w;
    if x < 1 || x >= w - 1 || y < 1 || y >= h - 1 || !grid.data[i] {
        return false;
    }
    proof {
        lemma_interior_neighbors(w as int, h as int, i as int);
    }
    let n2 = grid.data[i - w];
    let n3 = grid.data[i - w + 1];
    let n4 = grid.data[i + 1];
    let n5 = grid.data[i + w + 1];
    let n6 = grid.data[i + w];
    let n7 = grid.data[i + w - 1];
    let n8 = grid.data[i - 1];
    let n9 = grid.data[i - w - 1];
    let mut black: u8 = 0;
    if n2 { black = black + 1; }
    if n3 { black = black + 1; }
    if n4 { black = black + 1; }
    if n5 { black = black + 1; }
    if n6 { black = black + 1; }
    if n7 { black = black + 1; }
    if n8 { black = black + 1; }
    if n9 { black = black + 1; }
    if black < 2 || black > 6 {
        return false;
    }
    let mut a: u8 = 0;
    if !n2 && n3 { a = a + 1; }
    if !n3 && n4 { a = a + 1; }
    if !n4 && n5 { a = a + 1; }
    if !n5 && n6 { a = a + 1; }
    if !n6 && n7 { a = a + 1; }
    if !n7 && n8 { a = a + 1; }
    if !n8 && n9 { a = a + 1; }
    if !n9 && n2 { a = a + 1; }
    if a != 1 {
        return false;
    }
    if pass == 1 {
        !(n2 && n4 && n6) && !(n4 && n6 && n8)
    } else {
        !(n2 && n4 && n8) && !(n2 && n6 && n8)
    }
}

/// Runs sub-pass `pass` of the thinning on a snapshot of `grid`, returning
/// the thinned grid and whether any cell was cleared.
pub fn zs_apply_sub_pass(grid: &FlatGrid, pass: u8) -> (r: (FlatGrid, bool))
    requires
        grid.wf(),
        grid.width >= 3,
        grid.height >= 3,
    ensures
        r.0.wf(),
        r.0.width == grid.width,
        r.0.height == grid.height,
        r.0.data@ == zs_sub_pass(grid.data@, grid.width as int, grid.height as int, pass as int),
        r.1 == (exists|i: int|
            0 <= i < grid.data@.len()
                && #[trigger] zs_candidate(grid.data@, grid.width as int, grid.height as int, i, pass as int)),
{
    let ghost g = grid.data@;
    let ghost w = grid.width as int;
    let ghost h = grid.height as int;
    let n = grid.data.len();
    let mut next: Vec<bool> = Vec::new();
    let mut changed = false;
    let mut i: usize = 0;
    while i < n
        invariant
            n == g.len(),
            g == grid.data@,
            grid.wf(),
            grid.width >= 3,
            grid.height >= 3,
            w == grid.width,
            h == grid.height,
            i <= n,
            next@.len() == i,
            forall|j: int| 0 <= j < i ==> #[trigger] next@[j] == (g[j] && !zs_candidate(g, w, h, j, pass as int)),
            changed == (exists|j: int| 0 <= j < i && #[trigger] zs_candidate(g, w, h, j, pass as int)),
        decreases n - i,
    {
        let cand = zs_is_candidate(grid, i, pass);
        if cand {
            changed = true;
            next.push(false);
        } else {
            next.push(grid.data[i]);
        }
        i = i + 1;
    }
    assert(next@ =~= zs_sub_pass(g, w, h, pass as int));
    (FlatGrid { data: next, width: grid.width, height: grid.height }, changed)
}

/// Zhang-Suen thinning: alternates the two sub-passes until a full
/// iteration clears nothing.
pub fn zhang_suen_thinning(grid: &mut FlatGrid)
    requires
        old(grid).wf(),
    ensures
        final(grid).wf(),
        final(grid).width == old(grid).width,
        final(grid).height == old(grid).height,
        final(grid).data@ == zs_thinned(old(grid).data@, old(grid).width as int, old(grid).height as int),
{
    let ghost w = grid.width as int;
    let ghost h = grid.height as int;
    if grid.width < 3 || grid.height < 3 {
        proof {
            let g = grid.data@;
            assert(zs_sub_pass(g, w, h, 1) =~= g);
            assert(zs_iteration(g, w, h) =~= g);
        }
        return;
    }
    let ghost target = zs_thinned(grid.data@, w, h);
    loop
        invariant
            grid.wf(),
            grid.width as int == w,
            grid.height as int == h,
            w == old(grid).width as int,
            h == old(grid).height as int,
            w >= 3,
            h >= 3,
            zs_thinned(grid.data@, w, h) == target,
            target == zs_thinned(old(grid).data@, w, h),
        decreases count_true(grid.data@),
    {
        let ghost g = grid.data@;
        let (g1, c1) = zs_apply_sub_pass(grid, 1);
        let (g2, c2) = zs_apply_sub_pass(&g1, 2);
        proof {
            lemma_iteration_shrinks(g, w, h);
        }
        if !c1 && !c2 {
            proof {
                assert(g1.data@ =~= g);
                assert(g2.data@ =~= g1.data@);
                assert(zs_iteration(g, w, h) == g);
                assert(zs_thinned(g, w, h) == g);
            }
            return;
        }
        proof {
            if c1 {
                let i = choose|i: int| 0 <= i < g.len() && #[trigger] zs_candidate(g, w, h, i, 1);
                assert(!g2.data@[i]);
            } else {
                let i = choose|i: int| 0 <= i < g1.data@.len() && #[trigger] zs_candidate(g1.data@, w, h, i, 2);
                assert(g1.data@ =~= g);
                assert(!g2.data@[i]);
            }
            assert(zs_iteration(g, w, h) != g);
        }
        *grid = g2;
    }
}

} // verus!

verus! {

/// The grid turned by half a turn: cell `j` of the result is cell
/// `n - 1 - j` of `g`, so the cell at column `x` and row `y` of a `w` by
/// `h` grid moves to column `w - 1 - x` and row `h - 1 - y`.
pub open spec fn half_turn(g: Seq<bool>) -> Seq<bool> {
    Seq::new(g.len(), |j: int| g[g.len() - 1 - j])
}

/// Turning a grid by half a turn moves interior cells to interior cells.
proof fn lemma_half_turn_interior(w: int, h: int, i: int)
    requires
        0 < w,
        0 <= i < w * h,
    ensures
        0 <= w * h - 1 - i < w * h,
        interior(w, h, w * h - 1 - i) == interior(w, h, i),
{
    lemma_col_row(w, h, i);
    let x = col(w, i);
    let y = row(w, i);
    assert(w * h - 1 - i == (h - 1 - y) * w + (w - 1 - x)) by (nonlinear_arith)
        requires
            i == y * w + x,
    ;
    crate::grid::lemma_col_row_of(w, w - 1 - x, h - 1 - y);
}

/// Sub-pass 2 of the thinning is sub-pass 1 seen upside down: running it
/// on a grid gives what sub-pass 1 gives on the grid turned by half a
/// turn, turned back. Sub-pass 1 erodes south-east boundaries and
/// north-west corners; sub-pass 2 erodes north-west boundaries and
/// south-east corners.
pub proof fn law_second_sub_pass_is_first_turned(g: Seq<bool>, w: int, h: int)
    requires
        0 < w,
        g.len() == w * h,
    ensures
        zs_sub_pass(g, w, h, 2) == half_turn(zs_sub_pass(half_turn(g), w, h, 1)),
{
    let n = g.len() as int;
    let r = half_turn(g);
    let lhs = zs_sub_pass(g, w, h, 2);
    let rhs = half_turn(zs_sub_pass(r, w, h, 1));
    assert forall|j: int| 0 <= j < n implies #[trigger] lhs[j] == rhs[j] by {
        let k = n - 1 - j;
        lemma_half_turn_interior(w, h, j);
        assert(r[k] == g[j]);
        if interior(w, h, j) {
            lemma_interior_neighbors(w, h, j);
            assert(p2(r, w, k) == p6(g, w, j));
            assert(p3(r, w, k) == p7(g, w, j));
            assert(p4(r, w, k) == p8(g, w, j));
            assert(p5(r, w, k) == p9(g, w, j));
            assert(p6(r, w, k) == p2(g, w, j));
            assert(p7(r, w, k) == p3(g, w, j));
            assert(p8(r, w, k) == p4(g, w, j));
            assert(p9(r, w, k) == p5(g, w, j));
            assert(zs_candidate(r, w, h, k, 1) == zs_candidate(g, w, h, j, 2));
        }
        assert(rhs[j] == zs_sub_pass(r, w, h, 1)[k]);
    }
    assert(lhs =~= rhs);
}

/// Among the cells the thinning may clear (interior set cells with two to
/// six set neighbours and one unset-to-set change around them), sub-pass 1
/// clears exactly those whose east or south neighbour is unset, and those
/// whose north and west neighbours are both unset; sub-pass 2 clears
/// exactly those whose north or west neighbour is unset, and those whose
/// east and south neighbours are both unset.
pub proof fn law_sub_pass_erosion_sides(g: Seq<bool>, w: int, h: int, i: int)
    requires
        interior(w, h, i),
        g[i],
        2 <= zs_black(g, w, i) <= 6,
        zs_transitions(g, w, i) == 1,
    ensures
        zs_candidate(g, w, h, i, 1) <==> (!g[i + 1] || !g[i + w] || (!g[i - w] && !g[i - 1])),
        zs_candidate(g, w, h, i, 2) <==> (!g[i - w] || !g[i - 1] || (!g[i + 1] && !g[i + w])),
{
}

/// Neither sub-pass clears the tip of a stroke or a lone pixel (at most
/// one set neighbour), a cell deep inside a blob (seven or eight set
/// neighbours), or a cell whose set neighbours form more than one run
/// around it, whose removal would cut a stroke.
pub proof fn law_sub_pass_keeps(g: Seq<bool>, w: int, h: int, i: int, pass: int)
    ensures
        zs_black(g, w, i) <= 1 ==> !zs_candidate(g, w, h, i, pass),
        zs_black(g, w, i) >= 7 ==> !zs_candidate(g, w, h, i, pass),
        zs_transitions(g, w, i) != 1 ==> !zs_candidate(g, w, h, i, pass),
        !g[i] ==> !zs_candidate(g, w, h, i, pass),
        !interior(w, h, i) ==> !zs_candidate(g, w, h, i, pass),
{
}

} // verus!
