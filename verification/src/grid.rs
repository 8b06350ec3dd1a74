//! Row-major boolean pixel grids and their neighbourhood geometry.
use vstd::prelude::*;

verus! {

/// Row-major flat boolean grid: the cell at column `x` and row `y` is
/// `data[y * width + x]`.
pub struct FlatGrid {
    pub data: Vec<bool>,
    pub width: usize,
    pub height: usize,
}

/// `x` coordinate of flat index `i` in a grid `w` cells wide.
pub open spec fn col(w: int, i: int) -> int {
    i % w
}

/// `y` coordinate of flat index `i` in a grid `w` cells wide.
pub open spec fn row(w: int, i: int) -> int {
    i / w
}

/// Cell `i` lies off the outer ring of a `w` by `h` grid.
pub open spec fn interior(w: int, h: int, i: int) -> bool {
    1 <= col(w, i) < w - 1 && 1 <= row(w, i) < h - 1
}

/// Column offset of neighbour `k` of the eight, in the scan order (rows
/// top to bottom, columns left to right within a row).
pub open spec fn offset_dx(k: int) -> int {
    if k == 0 || k == 3 || k == 5 { -1 } else if k == 1 || k == 6 { 0 } else { 1 }
}

/// Row offset of neighbour `k` of the eight, in the same scan order.
pub open spec fn offset_dy(k: int) -> int {
    if k <= 2 { -1 } else if k <= 4 { 0 } else { 1 }
}

/// The flat index of the `k`-th neighbour of cell `i`, when it lies inside
/// the `w` by `h` grid.
pub open spec fn neighbor_index(w: int, h: int, i: int, k: int) -> Option<int> {
    let nx = col(w, i) + offset_dx(k);
    let ny = row(w, i) + offset_dy(k);
    if 0 <= nx < w && 0 <= ny < h {
        Some(i + offset_dy(k) * w + offset_dx(k))
    } else {
        None
    }
}

/// Cells `i` and `j` are distinct and touch, by a side or a corner.
pub open spec fn adjacent(w: int, i: int, j: int) -> bool {
    &&& -1 <= col(w, j) - col(w, i) <= 1
    &&& -1 <= row(w, j) - row(w, i) <= 1
    &&& i != j
}

/// Whether the `k`-th neighbour of `i` exists and is set.
pub open spec fn neighbor_set(g: Seq<bool>, w: int, h: int, i: int, k: int) -> bool {
    match neighbor_index(w, h, i, k) {
        Some(j) => g[j],
        None => false,
    }
}

/// The set neighbours of `i` among offsets `k..8`, in scan order.
pub open spec fn set_neighbors_from(g: Seq<bool>, w: int, h: int, i: int, k: int) -> Seq<int>
    decreases 8 - k,
{
    if k >= 8 || k < 0 {
        Seq::empty()
    } else {
        let rest = set_neighbors_from(g, w, h, i, k + 1);
        if neighbor_set(g, w, h, i, k) {
            seq![neighbor_index(w, h, i, k).unwrap()] + rest
        } else {
            rest
        }
    }
}

/// The set neighbours of `i`, in scan order.
pub open spec fn set_neighbors(g: Seq<bool>, w: int, h: int, i: int) -> Seq<int> {
    set_neighbors_from(g, w, h, i, 0)
}

/// Number of set cells in a sequence.
pub open spec fn count_true(s: Seq<bool>) -> nat
    decreases s.len(),
{
    if s.len() == 0 {
        0
    } else {
        count_true(s.drop_last()) + if s.last() { 1nat } else { 0nat }
    }
}

/// Number of unset cells in a sequence.
pub open spec fn count_false(s: Seq<bool>) -> nat
    decreases s.len(),
{
    if s.len() == 0 {
        0
    } else {
        count_false(s.drop_last()) + if s.last() { 0nat } else { 1nat }
    }
}

/// The flat index of column `x`, row `y` lies inside a `w` by `h` grid.
pub proof fn lemma_index_in_bounds(x: int, y: int, w: int, h: int)
    requires
        0 <= x < w,
        0 <= y < h,
    ensures
        0 <= y * w + x < w * h,
        0 <= y * w,
{
    assert(0 <= y * w + x < w * h) by (nonlinear_arith)
        requires
            0 <= x < w,
            0 <= y < h,
    ;
    assert(0 <= y * w) by (nonlinear_arith)
        requires
            0 <= y,
            0 <= w,
    ;
}

/// Splitting a flat index into column and row.
pub proof fn lemma_col_row(w: int, h: int, i: int)
    requires
        0 < w,
        0 <= i < w * h,
    ensures
        0 <= col(w, i) < w,
        0 <= row(w, i) < h,
        i == row(w, i) * w + col(w, i),
{
    vstd::arithmetic::div_mod::lemma_fundamental_div_mod(i, w);
    let q = i / w;
    let r = i % w;
    assert(0 <= r < w) by {
        vstd::arithmetic::div_mod::lemma_mod_pos_bound(i, w);
    }
    assert(q * w == w * q) by (nonlinear_arith);
    assert(0 <= q < h) by (nonlinear_arith)
        requires
            i == q * w + r,
            0 <= r < w,
            0 <= i < w * h,
            0 < w,
    ;
}

/// A flat index built from a column and a row splits back into them.
pub proof fn lemma_col_row_of(w: int, x: int, y: int)
    requires
        0 <= x < w,
        0 <= y,
    ensures
        col(w, y * w + x) == x,
        row(w, y * w + x) == y,
{
    vstd::arithmetic::div_mod::lemma_fundamental_div_mod_converse(y * w + x, w, y, x);
}

/// Removing set cells pointwise never increases the count, and strictly
/// decreases it when some set cell was removed.
pub proof fn lemma_count_true_shrinks(a: Seq<bool>, b: Seq<bool>)
    requires
        a.len() == b.len(),
        forall|i: int| 0 <= i < a.len() && #[trigger] b[i] ==> a[i],
    ensures
        count_true(b) <= count_true(a),
        (exists|i: int| 0 <= i < a.len() && a[i] && !b[i]) ==> count_true(b) < count_true(a),
    decreases a.len(),
{
    if a.len() > 0 {
        let a2 = a.drop_last();
        let b2 = b.drop_last();
        assert forall|i: int| 0 <= i < a2.len() && #[trigger] b2[i] implies a2[i] by {
            assert(b[i]);
        }
        lemma_count_true_shrinks(a2, b2);
        if exists|i: int| 0 <= i < a.len() && a[i] && !b[i] {
            let i = choose|i: int| 0 <= i < a.len() && a[i] && !b[i];
            if i < a.len() - 1 {
                assert(a2[i] && !b2[i]);
            }
        }
    }
}

/// Setting one unset cell strictly decreases the number of unset cells.
pub proof fn lemma_count_false_mark(s: Seq<bool>, i: int)
    requires
        0 <= i < s.len(),
        !s[i],
    ensures
        count_false(s.update(i, true)) + 1 == count_false(s),
    decreases s.len(),
{
    let t = s.update(i, true);
    if i == s.len() - 1 {
        assert(t.drop_last() =~= s.drop_last());
    } else {
        assert(t.drop_last() =~= s.drop_last().update(i, true));
        lemma_count_false_mark(s.drop_last(), i);
    }
}

/// A neighbour inside the grid has a flat index inside the grid, one step
/// away in each direction.
pub proof fn lemma_neighbor_index_in_bounds(w: int, h: int, i: int, k: int)
    requires
        0 < w,
        0 <= i < w * h,
        neighbor_index(w, h, i, k) is Some,
    ensures
        0 <= neighbor_index(w, h, i, k).unwrap() < w * h,
        col(w, neighbor_index(w, h, i, k).unwrap()) == col(w, i) + offset_dx(k),
        row(w, neighbor_index(w, h, i, k).unwrap()) == row(w, i) + offset_dy(k),
        offset_dy(k) == -1 ==> neighbor_index(w, h, i, k).unwrap() == i - w + offset_dx(k),
        offset_dy(k) == 0 ==> neighbor_index(w, h, i, k).unwrap() == i + offset_dx(k),
        offset_dy(k) == 1 ==> neighbor_index(w, h, i, k).unwrap() == i + w + offset_dx(k),
{
    lemma_col_row(w, h, i);
    let x = col(w, i);
    let y = row(w, i);
    let nx = x + offset_dx(k);
    let ny = y + offset_dy(k);
    let j = i + offset_dy(k) * w + offset_dx(k);
    assert(j == ny * w + nx) by {
        if offset_dy(k) == -1 {
            assert(ny * w == y * w - w) by (nonlinear_arith) requires ny == y - 1;
            assert(offset_dy(k) * w == -w) by (nonlinear_arith) requires offset_dy(k) == -1;
        } else if offset_dy(k) == 0 {
            assert(offset_dy(k) * w == 0) by (nonlinear_arith) requires offset_dy(k) == 0;
        } else {
            assert(ny * w == y * w + w) by (nonlinear_arith) requires ny == y + 1;
            assert(offset_dy(k) * w == w) by (nonlinear_arith) requires offset_dy(k) == 1;
        }
    }
    lemma_index_in_bounds(nx, ny, w, h);
    lemma_col_row_of(w, nx, ny);
}

/// Every listed neighbour is a set cell inside the grid.
pub proof fn lemma_set_neighbors_valid(g: Seq<bool>, w: int, h: int, i: int, k: int)
    requires
        0 < w,
        g.len() == w * h,
        0 <= i < w * h,
    ensures
        forall|m: int|
            0 <= m < set_neighbors_from(g, w, h, i, k).len() ==> 0 <= #[trigger] set_neighbors_from(g, w, h, i, k)[m] < w * h
                && g[set_neighbors_from(g, w, h, i, k)[m]] && adjacent(w, i, set_neighbors_from(g, w, h, i, k)[m]),
    decreases 8 - k,
{
    if 0 <= k < 8 {
        lemma_set_neighbors_valid(g, w, h, i, k + 1);
        if neighbor_set(g, w, h, i, k) {
            lemma_neighbor_index_in_bounds(w, h, i, k);
            let rest = set_neighbors_from(g, w, h, i, k + 1);
            let j = neighbor_index(w, h, i, k).unwrap();
            assert(adjacent(w, i, j));
            assert forall|m: int| 0 <= m < set_neighbors_from(g, w, h, i, k).len() implies 0
                <= #[trigger] set_neighbors_from(g, w, h, i, k)[m] < w * h
                && g[set_neighbors_from(g, w, h, i, k)[m]] && adjacent(w, i, set_neighbors_from(g, w, h, i, k)[m]) by {
                if m > 0 {
                    assert(set_neighbors_from(g, w, h, i, k)[m] == rest[m - 1]);
                }
            }
        } else {
            assert(set_neighbors_from(g, w, h, i, k) == set_neighbors_from(g, w, h, i, k + 1));
        }
    }
}

impl FlatGrid {
    /// The flat index of the `k`-th neighbour of cell `i`, if it lies in the
    /// grid.
    pub fn neighbor_at(&self, i: usize, k: usize) -> (r: Option<usize>)
        requires
            self.wf(),
            i < self.data@.len(),
            k < 8,
        ensures
            match neighbor_index(self.width as int, self.height as int, i as int, k as int) {
                Some(j) => r matches Some(x) && x as int == j,
                None => r is None,
            },
    {
        let w = self.width;
        let h = self.height;
        let _n: usize = self.data.len();
        proof {
            lemma_col_row(w as int, h as int, i as int);
        }
        let x = i % w;
        let y = i / w;
        let west = k == 0 || k == 3 || k == 5;
        let east = k == 2 || k == 4 || k == 7;
        let north = k <= 2;
        let south = k >= 5;
        if (west && x < 1) || (east && x + 1 >= w) || (north && y < 1) || (south && y + 1 >= h) {
            return None;
        }
        proof {
            lemma_neighbor_index_in_bounds(w as int, h as int, i as int, k as int);
            assert(i as int == y as int * w as int + x as int);
            if north {
                assert(y as int * w as int >= w as int) by (nonlinear_arith) requires y >= 1, w > 0;
            }
        }
        let mut j = i;
        if north {
            j = j - w;
        } else if south {
            j = j + w;
        }
        if west {
            j = j - 1;
        } else if east {
            j = j + 1;
        }
        Some(j)
    }

    /// The set neighbours of cell `i`, in scan order.
    pub fn set_neighbor_list(&self, i: usize) -> (r: Vec<usize>)
        requires
            self.wf(),
            i < self.data@.len(),
        ensures
            r@.map_values(|j: usize| j as int) == set_neighbors(self.data@, self.width as int, self.height as int, i as int),
            forall|m: int| 0 <= m < r@.len() ==> (#[trigger] r@[m] as int) < self.data@.len() && self.data@[r@[m] as int],
    {
        let ghost g = self.data@;
        let ghost w = self.width as int;
        let ghost h = self.height as int;
        let mut found: Vec<usize> = Vec::new();
        let mut k: usize = 8;
        proof {
            lemma_col_row(w, h, i as int);
        }
        while k > 0
            invariant
                k <= 8,
                self.wf(),
                g == self.data@,
                w == self.width,
                h == self.height,
                i < g.len(),
                found@.map_values(|j: usize| j as int) == set_neighbors_from(g, w, h, i as int, k as int),
                forall|m: int| 0 <= m < found@.len() ==> (#[trigger] found@[m] as int) < g.len() && g[found@[m] as int],
            decreases k,
        {
            k = k - 1;
            let nb = self.neighbor_at(i, k);
            match nb {
                Some(j) => {
                    proof {
                        lemma_neighbor_index_in_bounds(w, h, i as int, k as int);
                    }
                    assert(neighbor_index(w, h, i as int, k as int) == Some(j as int));
                    assert(neighbor_set(g, w, h, i as int, k as int) == g[j as int]);
                    if self.data[j] {
                        let ghost before = found@;
                        found.insert(0, j);
                        proof {
                            assert(found@.map_values(|j: usize| j as int) =~= seq![j as int] + before.map_values(|j: usize| j as int));
                            assert forall|m: int| 0 <= m < found@.len() implies (#[trigger] found@[m] as int) < g.len() && g[found@[m] as int] by {
                                if m > 0 {
                                    assert(found@[m] == before[m - 1]);
                                }
                            }
                        }
                    }
                },
                None => {},
            }
            assert(found@.map_values(|j: usize| j as int) =~= set_neighbors_from(g, w, h, i as int, k as int));
        }
        found
    }

    /// The grid's cells match its dimensions.
    pub open spec fn wf(&self) -> bool {
        self.data@.len() == self.width * self.height
    }

    /// A `width` by `height` grid with every cell unset.
    pub fn new(width: usize, height: usize) -> (g: FlatGrid)
        requires
            width * height <= usize::MAX,
        ensures
            g.wf(),
            g.width == width,
            g.height == height,
            forall|i: int| 0 <= i < g.data@.len() ==> !#[trigger] g.data@[i],
    {
        let n = width * height;
        let mut data: Vec<bool> = Vec::new();
        let mut k: usize = 0;
        while k < n
            invariant
                k <= n,
                data@.len() == k,
                forall|i: int| 0 <= i < data@.len() ==> !#[trigger] data@[i],
            decreases n - k,
        {
            data.push(false);
            k = k + 1;
        }
        FlatGrid { data, width, height }
    }

    /// The cell at column `x`, row `y`.
    pub fn get(&self, x: usize, y: usize) -> (b: bool)
        requires
            self.wf(),
            x < self.width,
            y < self.height,
        ensures
            b == self.data@[y * self.width + x],
    {
        proof {
            lemma_index_in_bounds(x as int, y as int, self.width as int, self.height as int);
        }
        let _n: usize = self.data.len();
        self.data[y * self.width + x]
    }

    /// Sets the cell at column `x`, row `y` to `v`.
    pub fn set(&mut self, x: usize, y: usize, v: bool)
        requires
            old(self).wf(),
            x < old(self).width,
            y < old(self).height,
        ensures
            final(self).wf(),
            final(self).width == old(self).width,
            final(self).height == old(self).height,
            final(self).data@ == old(self).data@.update(y * old(self).width + x, v),
    {
        proof {
            lemma_index_in_bounds(x as int, y as int, self.width as int, self.height as int);
        }
        let _n: usize = self.data.len();
        let i = y * self.width + x;
        self.data.set(i, v);
    }
}

} // verus!
