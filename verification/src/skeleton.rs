//! Tracing a thinned skeleton into polylines.
use vstd::prelude::*;
use crate::grid::{
    FlatGrid, col, row, interior, adjacent, set_neighbors, count_false, lemma_count_false_mark,
    lemma_set_neighbors_valid,
};

verus! {

/// Flat indices as integers.
pub open spec fn ints(p: Seq<usize>) -> Seq<int> {
    p.map_values(|j: usize| j as int)
}

/// Paths of flat indices as integer sequences.
pub open spec fn paths_view(ps: Seq<Vec<usize>>) -> Seq<Seq<int>> {
    ps.map_values(|p: Vec<usize>| ints(p@))
}

/// The first entry of `ns` not yet visited.
pub open spec fn first_unvisited(ns: Seq<int>, vis: Seq<bool>) -> Option<int>
    decreases ns.len(),
{
    if ns.len() == 0 {
        None
    } else if !vis[ns[0]] {
        Some(ns[0])
    } else {
        first_unvisited(ns.drop_first(), vis)
    }
}

/// The first entry of `ns` other than `avoid`.
pub open spec fn first_other(ns: Seq<int>, avoid: int) -> Option<int>
    decreases ns.len(),
{
    if ns.len() == 0 {
        None
    } else if ns[0] != avoid {
        Some(ns[0])
    } else {
        first_other(ns.drop_first(), avoid)
    }
}

/// The pixels a trace visits from `cur`: it marks `cur` visited and moves
/// on to the first unvisited set neighbour in scan order, until none is
/// left. (A start outside the grid or already visited is a one-pixel walk.)
pub open spec fn walk(g: Seq<bool>, w: int, h: int, vis: Seq<bool>, cur: int) -> Seq<int>
    decreases count_false(vis),
{
    if !(0 <= cur < vis.len()) || vis[cur] {
        seq![cur]
    } else {
        let vis1 = vis.update(cur, true);
        match first_unvisited(set_neighbors(g, w, h, cur), vis1) {
            Some(nx) => {
                proof {
                    lemma_count_false_mark(vis, cur);
                }
                seq![cur] + walk(g, w, h, vis1, nx)
            },
            None => seq![cur],
        }
    }
}

/// The pixel appended when a walk stops: a set neighbour of the last pixel
/// other than the one it came from (or any set neighbour after a one-pixel
/// walk), so that a closed stroke closes up.
pub open spec fn closing_point(g: Seq<bool>, w: int, h: int, own: Seq<int>) -> Option<int> {
    let ns = set_neighbors(g, w, h, own.last());
    if own.len() >= 2 {
        first_other(ns, own[own.len() - 2])
    } else if ns.len() > 0 {
        Some(ns[0])
    } else {
        None
    }
}

/// A trace from `s`: its walk, then its closing pixel if any.
pub open spec fn trace(g: Seq<bool>, w: int, h: int, vis: Seq<bool>, s: int) -> Seq<int> {
    let own = walk(g, w, h, vis, s);
    match closing_point(g, w, h, own) {
        Some(c) => own.push(c),
        None => own,
    }
}

/// `vis` with the pixels of `own` marked.
pub open spec fn mark(vis: Seq<bool>, own: Seq<int>) -> Seq<bool> {
    Seq::new(vis.len(), |j: int| vis[j] || own.contains(j))
}

/// An interior set pixel with exactly one set neighbour: the tip of a stroke.
pub open spec fn is_endpoint(g: Seq<bool>, w: int, h: int, i: int) -> bool {
    interior(w, h, i) && g[i] && set_neighbors(g, w, h, i).len() == 1
}

/// The endpoints among the first `m` pixels, in scan order.
pub open spec fn endpoints_before(g: Seq<bool>, w: int, h: int, m: int) -> Seq<int>
    decreases m,
{
    if m <= 0 {
        Seq::empty()
    } else {
        endpoints_before(g, w, h, m - 1) + if is_endpoint(g, w, h, m - 1) {
            seq![m - 1]
        } else {
            Seq::empty()
        }
    }
}

/// Tracing from the endpoints `eps[k..]`, skipping those already visited,
/// and keeping the traces of more than one pixel: the final visited cells
/// and the traces kept.
pub open spec fn endpoint_pass(g: Seq<bool>, w: int, h: int, eps: Seq<int>, k: int, vis: Seq<bool>) -> (
    Seq<bool>,
    Seq<Seq<int>>,
)
    decreases eps.len() - k,
{
    if k >= eps.len() || k < 0 {
        (vis, Seq::empty())
    } else {
        let s = eps[k];
        if vis[s] {
            endpoint_pass(g, w, h, eps, k + 1, vis)
        } else {
            let t = trace(g, w, h, vis, s);
            let rest = endpoint_pass(g, w, h, eps, k + 1, mark(vis, walk(g, w, h, vis, s)));
            (rest.0, if t.len() > 1 { seq![t] + rest.1 } else { rest.1 })
        }
    }
}

/// Tracing from every interior set pixel from `i` on that is still
/// unvisited (closed loops and components without endpoints).
pub open spec fn remnant_pass(g: Seq<bool>, w: int, h: int, i: int, vis: Seq<bool>) -> (Seq<bool>, Seq<Seq<int>>)
    decreases g.len() - i,
{
    if i >= g.len() || i < 0 {
        (vis, Seq::empty())
    } else if interior(w, h, i) && g[i] && !vis[i] {
        let t = trace(g, w, h, vis, i);
        let rest = remnant_pass(g, w, h, i + 1, mark(vis, walk(g, w, h, vis, i)));
        (rest.0, if t.len() > 1 { seq![t] + rest.1 } else { rest.1 })
    } else {
        remnant_pass(g, w, h, i + 1, vis)
    }
}

/// The skeleton paths of a `w` by `h` grid: traces from the endpoints
/// first, then from what is left.
pub open spec fn skeleton_paths(g: Seq<bool>, w: int, h: int) -> Seq<Seq<int>> {
    if w < 3 || h < 3 {
        Seq::empty()
    } else {
        let vis0 = Seq::new(g.len(), |j: int| false);
        let first = endpoint_pass(g, w, h, endpoints_before(g, w, h, g.len() as int), 0, vis0);
        let second = remnant_pass(g, w, h, 0, first.0);
        first.1 + second.1
    }
}

/// The first unvisited entry of `ns`.
pub fn first_unvisited_in(ns: &Vec<usize>, visited: &Vec<bool>) -> (r: Option<usize>)
    requires
        forall|m: int| 0 <= m < ns@.len() ==> (#[trigger] ns@[m] as int) < visited@.len(),
    ensures
        match first_unvisited(ints(ns@), visited@) {
            Some(j) => r matches Some(x) && x as int == j,
            None => r is None,
        },
{
    let len = ns.len();
    let mut m: usize = 0;
    proof {
        assert(ints(ns@).subrange(0, len as int) =~= ints(ns@));
    }
    while m < len
        invariant
            len == ns@.len(),
            m <= len,
            forall|q: int| 0 <= q < ns@.len() ==> (#[trigger] ns@[q] as int) < visited@.len(),
            first_unvisited(ints(ns@).subrange(m as int, len as int), visited@) == first_unvisited(
                ints(ns@),
                visited@,
            ),
        decreases len - m,
    {
        proof {
            assert(ints(ns@).subrange(m as int, len as int).drop_first() =~= ints(ns@).subrange(m + 1, len as int));
        }
        if !visited[ns[m]] {
            return Some(ns[m]);
        }
        m = m + 1;
    }
    None
}

/// The first entry of `ns` other than `avoid`.
pub fn first_other_in(ns: &Vec<usize>, avoid: usize) -> (r: Option<usize>)
    ensures
        match first_other(ints(ns@), avoid as int) {
            Some(j) => r matches Some(x) && x as int == j,
            None => r is None,
        },
{
    let len = ns.len();
    let mut m: usize = 0;
    proof {
        assert(ints(ns@).subrange(0, len as int) =~= ints(ns@));
    }
    while m < len
        invariant
            len == ns@.len(),
            m <= len,
            first_other(ints(ns@).subrange(m as int, len as int), avoid as int) == first_other(
                ints(ns@),
                avoid as int,
            ),
        decreases len - m,
    {
        proof {
            assert(ints(ns@).subrange(m as int, len as int).drop_first() =~= ints(ns@).subrange(m + 1, len as int));
        }
        if ns[m] != avoid {
            return Some(ns[m]);
        }
        m = m + 1;
    }
    None
}

/// The first unvisited entry is an unvisited entry.
pub proof fn lemma_first_unvisited(ns: Seq<int>, vis: Seq<bool>)
    ensures
        first_unvisited(ns, vis) matches Some(j) ==> (exists|m: int| 0 <= m < ns.len() && ns[m] == j) && !vis[j],
    decreases ns.len(),
{
    if ns.len() > 0 && vis[ns[0]] {
        lemma_first_unvisited(ns.drop_first(), vis);
        if first_unvisited(ns, vis) is Some {
            let j = first_unvisited(ns, vis).unwrap();
            let m = choose|m: int| 0 <= m < ns.drop_first().len() && ns.drop_first()[m] == j;
            assert(ns[m + 1] == j);
        }
    } else if ns.len() > 0 {
        assert(ns[0] == ns[0]);
    }
}

/// Marking one more pixel.
pub proof fn lemma_mark_push(vis: Seq<bool>, own: Seq<int>, c: int)
    requires
        0 <= c < vis.len(),
    ensures
        mark(vis, own.push(c)) =~= mark(vis, own).update(c, true),
{
    assert forall|j: int| 0 <= j < vis.len() implies mark(vis, own.push(c))[j] == mark(vis, own).update(c, true)[j] by {
        if own.contains(j) {
            let k = choose|k: int| 0 <= k < own.len() && own[k] == j;
            assert(own.push(c)[k] == j);
        }
        if own.push(c).contains(j) && j != c {
            let k = choose|k: int| 0 <= k < own.push(c).len() && own.push(c)[k] == j;
            assert(own[k] == j);
        }
        if j == c {
            assert(own.push(c)[own.len() as int] == c);
        }
    }
}

/// Traces one polyline from `start`, consuming its pixels from `visited`.
pub fn trace_from(grid: &FlatGrid, visited: &mut Vec<bool>, start: usize) -> (path: Vec<usize>)
    requires
        grid.wf(),
        old(visited)@.len() == grid.data@.len(),
        start < grid.data@.len(),
        !old(visited)@[start as int],
    ensures
        ints(path@) == trace(grid.data@, grid.width as int, grid.height as int, old(visited)@, start as int),
        final(visited)@ == mark(
            old(visited)@,
            walk(grid.data@, grid.width as int, grid.height as int, old(visited)@, start as int),
        ),
{
    let ghost g = grid.data@;
    let ghost w = grid.width as int;
    let ghost h = grid.height as int;
    let ghost vis0 = visited@;
    let ghost whole = walk(g, w, h, vis0, start as int);
    let n = grid.data.len();
    let mut path: Vec<usize> = Vec::new();
    let mut cur = start;
    proof {
        assert(ints(path@) + whole =~= whole);
        assert(mark(vis0, ints(path@)) =~= vis0);
    }
    loop
        invariant
            grid.wf(),
            g == grid.data@,
            w == grid.width,
            h == grid.height,
            n == g.len(),
            visited@.len() == n,
            cur < n,
            !visited@[cur as int],
            ints(path@) + walk(g, w, h, visited@, cur as int) == whole,
            visited@ == mark(vis0, ints(path@)),
            whole == walk(g, w, h, vis0, start as int),
            vis0.len() == n,
            vis0 == old(visited)@,
        decreases count_false(visited@),
    {
        let ghost v = visited@;
        let ghost p = ints(path@);
        visited.set(cur, true);
        path.push(cur);
        let ns = grid.set_neighbor_list(cur);
        let next = first_unvisited_in(&ns, visited);
        proof {
            lemma_count_false_mark(v, cur as int);
            assert(ints(path@) =~= p.push(cur as int));
            lemma_mark_push(vis0, p, cur as int);
            assert(visited@ =~= mark(vis0, ints(path@)));
        }
        match next {
            Some(nx) => {
                proof {
                    lemma_first_unvisited(ints(ns@), visited@);
                    let m = choose|m: int| 0 <= m < ints(ns@).len() && ints(ns@)[m] == nx as int;
                    assert(ns@[m] as int == nx as int);
                    lemma_first_unvisited(ints(ns@), visited@);
                    let m = choose|m: int| 0 <= m < ints(ns@).len() && ints(ns@)[m] == nx as int;
                    assert(ns@[m] as int == nx as int);
                    assert(walk(g, w, h, v, cur as int) == seq![cur as int] + walk(g, w, h, visited@, nx as int));
                    assert(ints(path@) + walk(g, w, h, visited@, nx as int) =~= p + walk(g, w, h, v, cur as int));
                }
                cur = nx;
            },
            None => {
                proof {
                    assert(walk(g, w, h, v, cur as int) == seq![cur as int]);
                    assert(ints(path@) =~= whole);
                }
                let len = path.len();
                proof {
                    assert(whole.last() == cur as int);
                    assert(ints(ns@) == set_neighbors(g, w, h, cur as int));
                    if len >= 2 {
                        assert(whole[len - 2] == path@[len - 2] as int);
                    }
                }
                if len >= 2 {
                    let prev = path[len - 2];
                    let extra = first_other_in(&ns, prev);
                    match extra {
                        Some(c) => {
                            path.push(c);
                            proof {
                                assert(ints(path@) =~= whole.push(c as int));
                            }
                        },
                        None => {},
                    }
                } else {
                    if ns.len() > 0 {
                        let c = ns[0];
                        path.push(c);
                        proof {
                            assert(ints(path@) =~= whole.push(c as int));
                        }
                    }
                }
                return path;
            },
        }
    }
}


/// The endpoints of the grid, in scan order.
pub fn skeleton_endpoints(grid: &FlatGrid) -> (eps: Vec<usize>)
    requires
        grid.wf(),
        grid.width >= 3,
        grid.height >= 3,
    ensures
        ints(eps@) == endpoints_before(grid.data@, grid.width as int, grid.height as int, grid.data@.len() as int),
        forall|m: int| 0 <= m < eps@.len() ==> (#[trigger] eps@[m] as int) < grid.data@.len(),
{
    let ghost g = grid.data@;
    let ghost w = grid.width as int;
    let ghost h = grid.height as int;
    let n = grid.data.len();
    let width = grid.width;
    let height = grid.height;
    let mut eps: Vec<usize> = Vec::new();
    let mut i: usize = 0;
    while i < n
        invariant
            grid.wf(),
            g == grid.data@,
            w == width,
            h == height,
            width == grid.width,
            height == grid.height,
            width >= 3,
            n == g.len(),
            i <= n,
            ints(eps@) == endpoints_before(g, w, h, i as int),
            forall|m: int| 0 <= m < eps@.len() ==> (#[trigger] eps@[m] as int) < i,
        decreases n - i,
    {
        let x = i % width;
        let y = i / width;
        let mut endpoint = false;
        if x >= 1 && x + 1 < width && y >= 1 && y + 1 < height && grid.data[i] {
            let ns = grid.set_neighbor_list(i);
            endpoint = ns.len() == 1;
        }
        let ghost before = eps@;
        if endpoint {
            eps.push(i);
        }
        proof {
            assert(endpoint == is_endpoint(g, w, h, i as int));
            if endpoint {
                assert(ints(eps@) =~= ints(before) + seq![i as int]);
            } else {
                assert(ints(eps@) =~= ints(before) + Seq::<int>::empty());
            }
        }
        i = i + 1;
    }
    eps
}

/// The skeleton paths of `grid` as flat indices: traces from the endpoints
/// first, then from the pixels left (closed loops and components without an
/// endpoint); traces of a single pixel are dropped.
pub fn extract_path_indices(grid: &FlatGrid) -> (r: Vec<Vec<usize>>)
    requires
        grid.wf(),
    ensures
        paths_view(r@) == skeleton_paths(grid.data@, grid.width as int, grid.height as int),
{
    let ghost g = grid.data@;
    let ghost w = grid.width as int;
    let ghost h = grid.height as int;
    let mut paths: Vec<Vec<usize>> = Vec::new();
    if grid.width < 3 || grid.height < 3 {
        proof {
            assert(paths_view(paths@) =~= Seq::<Seq<int>>::empty());
        }
        return paths;
    }
    let n = grid.data.len();
    let width = grid.width;
    let height = grid.height;
    let mut visited: Vec<bool> = Vec::new();
    let mut q: usize = 0;
    while q < n
        invariant
            q <= n,
            visited@.len() == q,
            forall|j: int| 0 <= j < q ==> !#[trigger] visited@[j],
        decreases n - q,
    {
        visited.push(false);
        q = q + 1;
    }
    let ghost vis0 = Seq::new(g.len(), |j: int| false);
    proof {
        assert(visited@ =~= vis0);
    }
    let eps = skeleton_endpoints(grid);
    let ghost epsv = ints(eps@);
    let ghost first = endpoint_pass(g, w, h, epsv, 0, vis0);
    let ghost second = remnant_pass(g, w, h, 0, first.0);
    proof {
        assert(paths_view(paths@) + first.1 =~= first.1);
    }
    let ne = eps.len();
    let mut k: usize = 0;
    while k < ne
        invariant
            grid.wf(),
            g == grid.data@,
            w == grid.width,
            h == grid.height,
            n == g.len(),
            ne == eps@.len(),
            epsv == ints(eps@),
            forall|m: int| 0 <= m < eps@.len() ==> (#[trigger] eps@[m] as int) < n,
            k <= ne,
            visited@.len() == n,
            first == endpoint_pass(g, w, h, epsv, 0, vis0),
            endpoint_pass(g, w, h, epsv, k as int, visited@).0 == first.0,
            paths_view(paths@) + endpoint_pass(g, w, h, epsv, k as int, visited@).1 == first.1,
        decreases ne - k,
    {
        let s = eps[k];
        if !visited[s] {
            let ghost v = visited@;
            let path = trace_from(grid, &mut visited, s);
            let ghost before = paths@;
            if path.len() > 1 {
                paths.push(path);
                proof {
                    assert(paths_view(paths@) =~= paths_view(before).push(ints(path@)));
                    assert(paths_view(paths@) + endpoint_pass(g, w, h, epsv, k + 1, visited@).1
                        =~= paths_view(before) + (seq![ints(path@)] + endpoint_pass(g, w, h, epsv, k + 1, visited@).1));
                }
            }
        }
        k = k + 1;
    }
    proof {
        assert(visited@ == first.0);
        assert(paths_view(paths@) + second.1 =~= first.1 + second.1);
    }
    let mut i: usize = 0;
    while i < n
        invariant
            grid.wf(),
            g == grid.data@,
            w == width,
            h == height,
            width == grid.width,
            height == grid.height,
            width >= 3,
            height >= 3,
            n == g.len(),
            i <= n,
            visited@.len() == n,
            second == remnant_pass(g, w, h, 0, first.0),
            paths_view(paths@) + remnant_pass(g, w, h, i as int, visited@).1 == first.1 + second.1,
        decreases n - i,
    {
        let x = i % width;
        let y = i / width;
        if x >= 1 && x + 1 < width && y >= 1 && y + 1 < height && grid.data[i] && !visited[i] {
            let path = trace_from(grid, &mut visited, i);
            let ghost before = paths@;
            if path.len() > 1 {
                paths.push(path);
                proof {
                    assert(paths_view(paths@) =~= paths_view(before).push(ints(path@)));
                    assert(paths_view(paths@) + remnant_pass(g, w, h, i + 1, visited@).1
                        =~= paths_view(before) + (seq![ints(path@)] + remnant_pass(g, w, h, i + 1, visited@).1));
                }
            }
        }
        i = i + 1;
    }
    proof {
        assert(paths_view(paths@) + Seq::<Seq<int>>::empty() =~= paths_view(paths@));
    }
    paths
}


/// Every trace kept by the endpoint pass has at least two pixels.
pub proof fn lemma_endpoint_pass_long(g: Seq<bool>, w: int, h: int, eps: Seq<int>, k: int, vis: Seq<bool>)
    ensures
        forall|m: int| 0 <= m < endpoint_pass(g, w, h, eps, k, vis).1.len()
            ==> (#[trigger] endpoint_pass(g, w, h, eps, k, vis).1[m]).len() >= 2,
    decreases eps.len() - k,
{
    if !(k >= eps.len() || k < 0) {
        let s = eps[k];
        if vis[s] {
            lemma_endpoint_pass_long(g, w, h, eps, k + 1, vis);
            assert(endpoint_pass(g, w, h, eps, k, vis) == endpoint_pass(g, w, h, eps, k + 1, vis));
        } else {
            let nv = mark(vis, walk(g, w, h, vis, s));
            lemma_endpoint_pass_long(g, w, h, eps, k + 1, nv);
            let t = trace(g, w, h, vis, s);
            let rest = endpoint_pass(g, w, h, eps, k + 1, nv).1;
            if t.len() > 1 {
                assert forall|m: int| 0 <= m < endpoint_pass(g, w, h, eps, k, vis).1.len()
                    implies (#[trigger] endpoint_pass(g, w, h, eps, k, vis).1[m]).len() >= 2 by {
                    if m > 0 {
                        assert(endpoint_pass(g, w, h, eps, k, vis).1[m] == rest[m - 1]);
                    }
                }
            } else {
                assert(endpoint_pass(g, w, h, eps, k, vis).1 == rest);
            }
        }
    }
}

/// Every trace kept by the remnant pass has at least two pixels.
pub proof fn lemma_remnant_pass_long(g: Seq<bool>, w: int, h: int, i: int, vis: Seq<bool>)
    ensures
        forall|m: int| 0 <= m < remnant_pass(g, w, h, i, vis).1.len()
            ==> (#[trigger] remnant_pass(g, w, h, i, vis).1[m]).len() >= 2,
    decreases g.len() - i,
{
    if !(i >= g.len() || i < 0) {
        if interior(w, h, i) && g[i] && !vis[i] {
            let nv = mark(vis, walk(g, w, h, vis, i));
            lemma_remnant_pass_long(g, w, h, i + 1, nv);
            let t = trace(g, w, h, vis, i);
            let rest = remnant_pass(g, w, h, i + 1, nv).1;
            if t.len() > 1 {
                assert forall|m: int| 0 <= m < remnant_pass(g, w, h, i, vis).1.len()
                    implies (#[trigger] remnant_pass(g, w, h, i, vis).1[m]).len() >= 2 by {
                    if m > 0 {
                        assert(remnant_pass(g, w, h, i, vis).1[m] == rest[m - 1]);
                    }
                }
            } else {
                assert(remnant_pass(g, w, h, i, vis).1 == rest);
            }
        } else {
            lemma_remnant_pass_long(g, w, h, i + 1, vis);
            assert(remnant_pass(g, w, h, i, vis) == remnant_pass(g, w, h, i + 1, vis));
        }
    }
}

/// Every skeleton path has at least two pixels.
pub proof fn lemma_skeleton_paths_long(g: Seq<bool>, w: int, h: int)
    ensures
        forall|m: int| 0 <= m < skeleton_paths(g, w, h).len() ==> (#[trigger] skeleton_paths(g, w, h)[m]).len() >= 2,
{
    if !(w < 3 || h < 3) {
        let vis0 = Seq::new(g.len(), |j: int| false);
        let eps = endpoints_before(g, w, h, g.len() as int);
        let first = endpoint_pass(g, w, h, eps, 0, vis0);
        lemma_endpoint_pass_long(g, w, h, eps, 0, vis0);
        lemma_remnant_pass_long(g, w, h, 0, first.0);
        let second = remnant_pass(g, w, h, 0, first.0);
        assert forall|m: int| 0 <= m < skeleton_paths(g, w, h).len() implies (#[trigger] skeleton_paths(g, w, h)[m]).len() >= 2 by {
            if m < first.1.len() {
                assert(skeleton_paths(g, w, h)[m] == first.1[m]);
            } else {
                assert(skeleton_paths(g, w, h)[m] == second.1[m - first.1.len()]);
            }
        }
    }
}

/// The cells of `t` are set cells of the grid, and each touches the next.
pub open spec fn linked(g: Seq<bool>, w: int, t: Seq<int>) -> bool {
    &&& forall|j: int| 0 <= j < t.len() ==> 0 <= #[trigger] t[j] < g.len() && g[t[j]]
    &&& forall|j: int| 0 <= j < t.len() - 1 ==> #[trigger] adjacent(w, t[j], t[j + 1])
}

/// A walk from a set cell is linked.
pub proof fn lemma_walk_linked(g: Seq<bool>, w: int, h: int, vis: Seq<bool>, cur: int)
    requires
        0 < w,
        g.len() == w * h,
        vis.len() == g.len(),
        0 <= cur < g.len(),
        g[cur],
    ensures
        linked(g, w, walk(g, w, h, vis, cur)),
    decreases count_false(vis),
{
    lemma_walk_in_grid(g, w, h, vis, cur);
    let wk = walk(g, w, h, vis, cur);
    if !vis[cur] {
        let vis1 = vis.update(cur, true);
        let ns = set_neighbors(g, w, h, cur);
        match first_unvisited(ns, vis1) {
            Some(nx) => {
                lemma_count_false_mark(vis, cur);
                lemma_first_unvisited(ns, vis1);
                lemma_set_neighbors_valid(g, w, h, cur, 0);
                let m0 = choose|m: int| 0 <= m < ns.len() && ns[m] == nx;
                assert(0 <= ns[m0] < w * h && g[ns[m0]] && adjacent(w, cur, ns[m0]));
                lemma_walk_linked(g, w, h, vis1, nx);
                lemma_walk_in_grid(g, w, h, vis1, nx);
                let rest = walk(g, w, h, vis1, nx);
                assert(wk == seq![cur] + rest);
                assert forall|j: int| 0 <= j < wk.len() implies 0 <= #[trigger] wk[j] < g.len() && g[wk[j]] by {
                    if j > 0 {
                        assert(wk[j] == rest[j - 1]);
                    }
                }
                assert forall|j: int| 0 <= j < wk.len() - 1 implies #[trigger] adjacent(w, wk[j], wk[j + 1]) by {
                    if j == 0 {
                        assert(wk[1] == rest[0]);
                    } else {
                        assert(wk[j] == rest[j - 1]);
                        assert(wk[j + 1] == rest[j]);
                        assert(adjacent(w, rest[j - 1], rest[(j - 1) + 1]));
                    }
                }
            },
            None => {},
        }
    }
}

/// A trace from a set cell is linked.
pub proof fn lemma_trace_linked(g: Seq<bool>, w: int, h: int, vis: Seq<bool>, s: int)
    requires
        0 < w,
        g.len() == w * h,
        vis.len() == g.len(),
        0 <= s < g.len(),
        g[s],
    ensures
        linked(g, w, trace(g, w, h, vis, s)),
{
    lemma_walk_linked(g, w, h, vis, s);
    lemma_walk_in_grid(g, w, h, vis, s);
    let own = walk(g, w, h, vis, s);
    let last = own.last();
    lemma_set_neighbors_valid(g, w, h, last, 0);
    let ns = set_neighbors(g, w, h, last);
    match closing_point(g, w, h, own) {
        Some(c) => {
            if own.len() >= 2 {
                lemma_first_other_member(ns, own[own.len() - 2]);
            }
            let m0 = choose|m: int| 0 <= m < ns.len() && ns[m] == c;
            assert(0 <= ns[m0] < w * h && g[ns[m0]] && adjacent(w, last, ns[m0]));
            let t = own.push(c);
            assert forall|j: int| 0 <= j < t.len() implies 0 <= #[trigger] t[j] < g.len() && g[t[j]] by {
                if j < own.len() {
                    assert(t[j] == own[j]);
                }
            }
            assert forall|j: int| 0 <= j < t.len() - 1 implies #[trigger] adjacent(w, t[j], t[j + 1]) by {
                if j < own.len() - 1 {
                    assert(adjacent(w, own[j], own[j + 1]));
                }
            }
        },
        None => {},
    }
}

/// The endpoints are set cells of the grid.
pub proof fn lemma_endpoints_set(g: Seq<bool>, w: int, h: int, m: int)
    requires
        m <= g.len(),
    ensures
        forall|k: int|
            0 <= k < endpoints_before(g, w, h, m).len() ==> 0 <= #[trigger] endpoints_before(g, w, h, m)[k] < m
                && g[endpoints_before(g, w, h, m)[k]],
    decreases m,
{
    if m > 0 {
        lemma_endpoints_set(g, w, h, m - 1);
        let prev = endpoints_before(g, w, h, m - 1);
        assert forall|k: int| 0 <= k < endpoints_before(g, w, h, m).len() implies 0
            <= #[trigger] endpoints_before(g, w, h, m)[k] < m && g[endpoints_before(g, w, h, m)[k]] by {
            if k < prev.len() {
                assert(endpoints_before(g, w, h, m)[k] == prev[k]);
            }
        }
    }
}

/// Every trace kept by the endpoint pass is linked.
pub proof fn lemma_endpoint_pass_linked(g: Seq<bool>, w: int, h: int, eps: Seq<int>, k: int, vis: Seq<bool>)
    requires
        0 < w,
        g.len() == w * h,
        vis.len() == g.len(),
        forall|q: int| 0 <= q < eps.len() ==> 0 <= #[trigger] eps[q] < g.len() && g[eps[q]],
    ensures
        endpoint_pass(g, w, h, eps, k, vis).0.len() == g.len(),
        forall|m: int| 0 <= m < endpoint_pass(g, w, h, eps, k, vis).1.len()
            ==> linked(g, w, #[trigger] endpoint_pass(g, w, h, eps, k, vis).1[m]),
    decreases eps.len() - k,
{
    if !(k >= eps.len() || k < 0) {
        let s = eps[k];
        if vis[s] {
            lemma_endpoint_pass_linked(g, w, h, eps, k + 1, vis);
            assert(endpoint_pass(g, w, h, eps, k, vis) == endpoint_pass(g, w, h, eps, k + 1, vis));
        } else {
            let nv = mark(vis, walk(g, w, h, vis, s));
            lemma_endpoint_pass_linked(g, w, h, eps, k + 1, nv);
            lemma_trace_linked(g, w, h, vis, s);
            let t = trace(g, w, h, vis, s);
            let rest = endpoint_pass(g, w, h, eps, k + 1, nv).1;
            if t.len() > 1 {
                assert forall|m: int| 0 <= m < endpoint_pass(g, w, h, eps, k, vis).1.len()
                    implies linked(g, w, #[trigger] endpoint_pass(g, w, h, eps, k, vis).1[m]) by {
                    if m > 0 {
                        assert(endpoint_pass(g, w, h, eps, k, vis).1[m] == rest[m - 1]);
                    }
                }
            } else {
                assert(endpoint_pass(g, w, h, eps, k, vis).1 == rest);
            }
        }
    }
}

/// Every trace kept by the remnant pass is linked.
pub proof fn lemma_remnant_pass_linked(g: Seq<bool>, w: int, h: int, i: int, vis: Seq<bool>)
    requires
        0 < w,
        g.len() == w * h,
        vis.len() == g.len(),
    ensures
        forall|m: int| 0 <= m < remnant_pass(g, w, h, i, vis).1.len()
            ==> linked(g, w, #[trigger] remnant_pass(g, w, h, i, vis).1[m]),
    decreases g.len() - i,
{
    if !(i >= g.len() || i < 0) {
        if interior(w, h, i) && g[i] && !vis[i] {
            let nv = mark(vis, walk(g, w, h, vis, i));
            lemma_remnant_pass_linked(g, w, h, i + 1, nv);
            lemma_trace_linked(g, w, h, vis, i);
            let t = trace(g, w, h, vis, i);
            let rest = remnant_pass(g, w, h, i + 1, nv).1;
            if t.len() > 1 {
                assert forall|m: int| 0 <= m < remnant_pass(g, w, h, i, vis).1.len()
                    implies linked(g, w, #[trigger] remnant_pass(g, w, h, i, vis).1[m]) by {
                    if m > 0 {
                        assert(remnant_pass(g, w, h, i, vis).1[m] == rest[m - 1]);
                    }
                }
            } else {
                assert(remnant_pass(g, w, h, i, vis).1 == rest);
            }
        } else {
            lemma_remnant_pass_linked(g, w, h, i + 1, vis);
            assert(remnant_pass(g, w, h, i, vis) == remnant_pass(g, w, h, i + 1, vis));
        }
    }
}

/// Every skeleton path is a chain of at least two set cells of the grid,
/// each touching the next by a side or a corner.
pub proof fn law_skeleton_paths_linked(g: Seq<bool>, w: int, h: int)
    requires
        g.len() == w * h,
    ensures
        forall|m: int|
            0 <= m < skeleton_paths(g, w, h).len() ==> {
                &&& linked(g, w, #[trigger] skeleton_paths(g, w, h)[m])
                &&& skeleton_paths(g, w, h)[m].len() >= 2
            },
{
    lemma_skeleton_paths_long(g, w, h);
    if !(w < 3 || h < 3) {
        let vis0 = Seq::new(g.len(), |j: int| false);
        let eps = endpoints_before(g, w, h, g.len() as int);
        lemma_endpoints_set(g, w, h, g.len() as int);
        let first = endpoint_pass(g, w, h, eps, 0, vis0);
        lemma_endpoint_pass_linked(g, w, h, eps, 0, vis0);
        lemma_remnant_pass_linked(g, w, h, 0, first.0);
        let second = remnant_pass(g, w, h, 0, first.0);
        assert forall|m: int| 0 <= m < skeleton_paths(g, w, h).len() implies linked(
            g,
            w,
            #[trigger] skeleton_paths(g, w, h)[m],
        ) by {
            if m < first.1.len() {
                assert(skeleton_paths(g, w, h)[m] == first.1[m]);
            } else {
                assert(skeleton_paths(g, w, h)[m] == second.1[m - first.1.len()]);
            }
        }
    }
}

/// Cell `j` has no set neighbour.
pub open spec fn isolated(g: Seq<bool>, w: int, h: int, j: int) -> bool {
    set_neighbors(g, w, h, j).len() == 0
}

/// Cell `j` lies on one of the paths `ps`.
pub open spec fn on_some_path(ps: Seq<Seq<int>>, j: int) -> bool {
    exists|m: int| 0 <= m < ps.len() && #[trigger] ps[m].contains(j)
}

/// A trace from an unvisited set cell keeps every walked cell, and has
/// more than one cell unless the walk is that single cell with no set
/// neighbour.
proof fn lemma_trace_keeps_walk(g: Seq<bool>, w: int, h: int, vis: Seq<bool>, s: int)
    requires
        0 < w,
        g.len() == w * h,
        vis.len() == g.len(),
        0 <= s < g.len(),
        !vis[s],
    ensures
        forall|j: int| #[trigger] walk(g, w, h, vis, s).contains(j) ==> trace(g, w, h, vis, s).contains(j),
        trace(g, w, h, vis, s).len() > 1 || (walk(g, w, h, vis, s) == seq![s] && isolated(g, w, h, s)),
{
    lemma_walk_in_grid(g, w, h, vis, s);
    let own = walk(g, w, h, vis, s);
    let t = trace(g, w, h, vis, s);
    assert forall|j: int| #[trigger] own.contains(j) implies t.contains(j) by {
        let k = choose|k: int| 0 <= k < own.len() && own[k] == j;
        if closing_point(g, w, h, own) is Some {
            assert(t[k] == j);
        }
    }
    let vis1 = vis.update(s, true);
    let ns = set_neighbors(g, w, h, s);
    match first_unvisited(ns, vis1) {
        Some(nx) => {
            lemma_first_unvisited(ns, vis1);
            lemma_set_neighbors_valid(g, w, h, s, 0);
            let m = choose|m: int| 0 <= m < ns.len() && ns[m] == nx;
            assert(0 <= ns[m] < w * h);
            lemma_walk_in_grid(g, w, h, vis1, nx);
            assert(own.len() >= 2);
        },
        None => {
            assert(own == seq![s]);
        },
    }
}

/// What the endpoint pass marks was marked before, lies on a path it
/// keeps, or has no set neighbour; it never unmarks a cell.
proof fn lemma_endpoint_pass_covers(g: Seq<bool>, w: int, h: int, eps: Seq<int>, k: int, vis: Seq<bool>)
    requires
        0 < w,
        g.len() == w * h,
        vis.len() == g.len(),
        forall|q: int| 0 <= q < eps.len() ==> 0 <= #[trigger] eps[q] < g.len(),
    ensures
        endpoint_pass(g, w, h, eps, k, vis).0.len() == g.len(),
        forall|j: int| 0 <= j < g.len() && vis[j] ==> #[trigger] endpoint_pass(g, w, h, eps, k, vis).0[j],
        forall|j: int|
            0 <= j < g.len() && #[trigger] endpoint_pass(g, w, h, eps, k, vis).0[j] ==> vis[j] || on_some_path(
                endpoint_pass(g, w, h, eps, k, vis).1,
                j,
            ) || isolated(g, w, h, j),
    decreases eps.len() - k,
{
    if !(k >= eps.len() || k < 0) {
        let s = eps[k];
        if vis[s] {
            lemma_endpoint_pass_covers(g, w, h, eps, k + 1, vis);
            assert(endpoint_pass(g, w, h, eps, k, vis) == endpoint_pass(g, w, h, eps, k + 1, vis));
        } else {
            let own = walk(g, w, h, vis, s);
            let nv = mark(vis, own);
            lemma_endpoint_pass_covers(g, w, h, eps, k + 1, nv);
            lemma_trace_keeps_walk(g, w, h, vis, s);
            let t = trace(g, w, h, vis, s);
            let rest = endpoint_pass(g, w, h, eps, k + 1, nv);
            let res = endpoint_pass(g, w, h, eps, k, vis);
            assert(res.0 == rest.0);
            assert forall|j: int| 0 <= j < g.len() && #[trigger] res.0[j] implies vis[j] || on_some_path(res.1, j)
                || isolated(g, w, h, j) by {
                if on_some_path(rest.1, j) {
                    let m = choose|m: int| 0 <= m < rest.1.len() && #[trigger] rest.1[m].contains(j);
                    if t.len() > 1 {
                        assert(res.1[m + 1] == rest.1[m]);
                    } else {
                        assert(res.1[m] == rest.1[m]);
                    }
                } else if !vis[j] && nv[j] {
                    assert(own.contains(j));
                    if t.len() > 1 {
                        assert(res.1[0] == t);
                        assert(res.1[0].contains(j));
                    } else {
                        assert(own == seq![s]);
                        assert(own[0] == s);
                        let q = choose|q: int| 0 <= q < own.len() && own[q] == j;
                        assert(j == s);
                    }
                }
            }
        }
    }
}

/// What the remnant pass marks was marked before, lies on a path it
/// keeps, or has no set neighbour; it never unmarks a cell, and it marks
/// every interior set cell from `i` on.
proof fn lemma_remnant_pass_covers(g: Seq<bool>, w: int, h: int, i: int, vis: Seq<bool>)
    requires
        0 < w,
        g.len() == w * h,
        vis.len() == g.len(),
        0 <= i,
    ensures
        remnant_pass(g, w, h, i, vis).0.len() == g.len(),
        forall|j: int| 0 <= j < g.len() && vis[j] ==> #[trigger] remnant_pass(g, w, h, i, vis).0[j],
        forall|j: int|
            i <= j < g.len() && interior(w, h, j) && g[j] ==> #[trigger] remnant_pass(g, w, h, i, vis).0[j],
        forall|j: int|
            0 <= j < g.len() && #[trigger] remnant_pass(g, w, h, i, vis).0[j] ==> vis[j] || on_some_path(
                remnant_pass(g, w, h, i, vis).1,
                j,
            ) || isolated(g, w, h, j),
    decreases g.len() - i,
{
    if i < g.len() {
        let res = remnant_pass(g, w, h, i, vis);
        if interior(w, h, i) && g[i] && !vis[i] {
            let own = walk(g, w, h, vis, i);
            let nv = mark(vis, own);
            lemma_remnant_pass_covers(g, w, h, i + 1, nv);
            lemma_trace_keeps_walk(g, w, h, vis, i);
            lemma_walk_in_grid(g, w, h, vis, i);
            let t = trace(g, w, h, vis, i);
            let rest = remnant_pass(g, w, h, i + 1, nv);
            assert(res.0 == rest.0);
            assert(own[0] == i);
            assert(nv[i]);
            assert forall|j: int| 0 <= j < g.len() && #[trigger] res.0[j] implies vis[j] || on_some_path(res.1, j)
                || isolated(g, w, h, j) by {
                if on_some_path(rest.1, j) {
                    let m = choose|m: int| 0 <= m < rest.1.len() && #[trigger] rest.1[m].contains(j);
                    if t.len() > 1 {
                        assert(res.1[m + 1] == rest.1[m]);
                    } else {
                        assert(res.1[m] == rest.1[m]);
                    }
                } else if !vis[j] && nv[j] {
                    assert(own.contains(j));
                    if t.len() > 1 {
                        assert(res.1[0] == t);
                        assert(res.1[0].contains(j));
                    } else {
                        let q = choose|q: int| 0 <= q < own.len() && own[q] == j;
                        assert(j == i);
                    }
                }
            }
            assert forall|j: int| i <= j < g.len() && interior(w, h, j) && g[j] implies #[trigger] res.0[j] by {
                if j == i {
                    assert(nv[j]);
                }
            }
        } else {
            lemma_remnant_pass_covers(g, w, h, i + 1, vis);
            assert(res == remnant_pass(g, w, h, i + 1, vis));
        }
    }
}

/// Every interior set cell with a set neighbour lies on some skeleton
/// path: what the endpoint pass leaves is traced by the remnant pass, and
/// only cells without a set neighbour are dropped.
pub proof fn law_skeleton_paths_cover(g: Seq<bool>, w: int, h: int)
    requires
        g.len() == w * h,
        w >= 3,
        h >= 3,
    ensures
        forall|j: int|
            0 <= j < g.len() && interior(w, h, j) && g[j] && !isolated(g, w, h, j) ==> on_some_path(
                skeleton_paths(g, w, h),
                j,
            ),
{
    let vis0 = Seq::new(g.len(), |j: int| false);
    let eps = endpoints_before(g, w, h, g.len() as int);
    lemma_endpoints_set(g, w, h, g.len() as int);
    let first = endpoint_pass(g, w, h, eps, 0, vis0);
    lemma_endpoint_pass_covers(g, w, h, eps, 0, vis0);
    lemma_remnant_pass_covers(g, w, h, 0, first.0);
    let second = remnant_pass(g, w, h, 0, first.0);
    let all = skeleton_paths(g, w, h);
    assert(all == first.1 + second.1);
    assert forall|j: int| 0 <= j < g.len() && interior(w, h, j) && g[j] && !isolated(g, w, h, j) implies on_some_path(
        all,
        j,
    ) by {
        assert(second.0[j]);
        if on_some_path(second.1, j) {
            let m = choose|m: int| 0 <= m < second.1.len() && #[trigger] second.1[m].contains(j);
            assert(all[first.1.len() + m] == second.1[m]);
        } else {
            assert(first.0[j]);
            assert(!vis0[j]);
            let m = choose|m: int| 0 <= m < first.1.len() && #[trigger] first.1[m].contains(j);
            assert(all[m] == first.1[m]);
        }
    }
}

/// No cell occurs twice among the paths `ps` once the last cell of each
/// path is set aside. (The last cell may repeat: it is where a trace
/// closes onto a cell that is already part of a stroke.)
pub open spec fn bodies_disjoint(ps: Seq<Seq<int>>) -> bool {
    forall|m1: int, i1: int, m2: int, i2: int|
        0 <= m1 < ps.len() && 0 <= m2 < ps.len() && 0 <= i1 < ps[m1].len() - 1 && 0 <= i2 < ps[m2].len() - 1
            && (m1 != m2 || i1 != i2) ==> #[trigger] ps[m1][i1] != #[trigger] ps[m2][i2]
}

/// Every cell of the paths `ps` but the last of each lies in the grid, was
/// unmarked in `before` and is marked in `after`.
spec fn bodies_fresh(ps: Seq<Seq<int>>, n: int, before: Seq<bool>, after: Seq<bool>) -> bool {
    forall|m: int, i: int|
        0 <= m < ps.len() && 0 <= i < ps[m].len() - 1 ==> 0 <= #[trigger] ps[m][i] < n && !before[ps[m][i]]
            && after[ps[m][i]]
}

/// The paths a pass keeps after tracing `t`: `t` in front when it has more
/// than one cell.
spec fn keep_trace(t: Seq<int>, ps: Seq<Seq<int>>) -> Seq<Seq<int>> {
    if t.len() > 1 {
        seq![t] + ps
    } else {
        ps
    }
}

/// A walk from an unvisited cell moves through distinct cells, none of
/// them visited before it starts.
proof fn lemma_walk_fresh(g: Seq<bool>, w: int, h: int, vis: Seq<bool>, cur: int)
    requires
        0 < w,
        g.len() == w * h,
        vis.len() == g.len(),
        0 <= cur < g.len(),
        !vis[cur],
    ensures
        forall|k: int| 0 <= k < walk(g, w, h, vis, cur).len() ==> !vis[#[trigger] walk(g, w, h, vis, cur)[k]],
        forall|a: int, b: int|
            0 <= a < b < walk(g, w, h, vis, cur).len() ==> #[trigger] walk(g, w, h, vis, cur)[a] != #[trigger] walk(
                g,
                w,
                h,
                vis,
                cur,
            )[b],
    decreases count_false(vis),
{
    lemma_walk_in_grid(g, w, h, vis, cur);
    let own = walk(g, w, h, vis, cur);
    let vis1 = vis.update(cur, true);
    let ns = set_neighbors(g, w, h, cur);
    match first_unvisited(ns, vis1) {
        Some(nx) => {
            lemma_count_false_mark(vis, cur);
            lemma_first_unvisited(ns, vis1);
            lemma_set_neighbors_valid(g, w, h, cur, 0);
            let m0 = choose|m: int| 0 <= m < ns.len() && ns[m] == nx;
            assert(0 <= ns[m0] < w * h);
            lemma_walk_fresh(g, w, h, vis1, nx);
            lemma_walk_in_grid(g, w, h, vis1, nx);
            let rest = walk(g, w, h, vis1, nx);
            assert(own == seq![cur] + rest);
            assert forall|k: int| 0 <= k < own.len() implies !vis[#[trigger] own[k]] by {
                if k > 0 {
                    assert(own[k] == rest[k - 1]);
                    assert(!vis1[rest[k - 1]]);
                }
            }
            assert forall|a: int, b: int| 0 <= a < b < own.len() implies #[trigger] own[a] != #[trigger] own[b] by {
                assert(own[b] == rest[b - 1]);
                assert(!vis1[rest[b - 1]]);
                if a > 0 {
                    assert(own[a] == rest[a - 1]);
                }
            }
        },
        None => {
            assert(own == seq![cur]);
        },
    }
}

/// Every cell of a trace but its last is the walk's cell at that place.
proof fn lemma_trace_body(g: Seq<bool>, w: int, h: int, vis: Seq<bool>, s: int)
    ensures
        trace(g, w, h, vis, s).len() <= walk(g, w, h, vis, s).len() + 1,
        forall|i: int|
            0 <= i < trace(g, w, h, vis, s).len() - 1 ==> #[trigger] trace(g, w, h, vis, s)[i] == walk(
                g,
                w,
                h,
                vis,
                s,
            )[i],
{
}

/// Putting a trace from an unvisited cell in front of paths traced after
/// its walk was marked keeps the bodies disjoint and fresh.
proof fn lemma_keep_trace_fresh(g: Seq<bool>, w: int, h: int, vis: Seq<bool>, s: int, ps: Seq<Seq<int>>, fin: Seq<bool>)
    requires
        0 < w,
        g.len() == w * h,
        vis.len() == g.len(),
        fin.len() == g.len(),
        0 <= s < g.len(),
        !vis[s],
        forall|j: int| 0 <= j < g.len() && mark(vis, walk(g, w, h, vis, s))[j] ==> #[trigger] fin[j],
        bodies_disjoint(ps),
        bodies_fresh(ps, g.len() as int, mark(vis, walk(g, w, h, vis, s)), fin),
    ensures
        bodies_disjoint(keep_trace(trace(g, w, h, vis, s), ps)),
        bodies_fresh(keep_trace(trace(g, w, h, vis, s), ps), g.len() as int, vis, fin),
{
    let own = walk(g, w, h, vis, s);
    let nv = mark(vis, own);
    let t = trace(g, w, h, vis, s);
    lemma_walk_in_grid(g, w, h, vis, s);
    lemma_walk_fresh(g, w, h, vis, s);
    lemma_trace_body(g, w, h, vis, s);
    let q = keep_trace(t, ps);
    assert forall|m: int, i: int| 0 <= m < ps.len() && 0 <= i < ps[m].len() - 1 implies !vis[#[trigger] ps[m][i]]
        && !own.contains(ps[m][i]) by {
        let c = ps[m][i];
        assert(!nv[c]);
    }
    assert forall|i: int| 0 <= i < t.len() - 1 implies 0 <= #[trigger] t[i] < g.len() && !vis[t[i]] && fin[t[i]]
        && own.contains(t[i]) by {
        assert(t[i] == own[i]);
        assert(own.contains(own[i]));
        assert(nv[own[i]]);
    }
    if t.len() > 1 {
        assert(q == seq![t] + ps);
        assert forall|m: int, i: int| 0 <= m < q.len() && 0 <= i < q[m].len() - 1 implies 0 <= #[trigger] q[m][i]
            < g.len() && !vis[q[m][i]] && fin[q[m][i]] by {
            if m == 0 {
                assert(q[0] == t);
            } else {
                assert(q[m] == ps[m - 1]);
            }
        }
        assert forall|m1: int, i1: int, m2: int, i2: int|
            0 <= m1 < q.len() && 0 <= m2 < q.len() && 0 <= i1 < q[m1].len() - 1 && 0 <= i2 < q[m2].len() - 1 && (m1
                != m2 || i1 != i2) implies #[trigger] q[m1][i1] != #[trigger] q[m2][i2] by {
            if m1 == 0 && m2 == 0 {
                assert(q[0] == t);
                assert(t[i1] == own[i1]);
                assert(t[i2] == own[i2]);
                if i1 < i2 {
                    assert(own[i1] != own[i2]);
                } else {
                    assert(own[i2] != own[i1]);
                }
            } else if m1 == 0 {
                assert(q[0] == t);
                assert(q[m2] == ps[m2 - 1]);
                assert(own.contains(t[i1]));
                assert(!own.contains(ps[m2 - 1][i2]));
            } else if m2 == 0 {
                assert(q[0] == t);
                assert(q[m1] == ps[m1 - 1]);
                assert(own.contains(t[i2]));
                assert(!own.contains(ps[m1 - 1][i1]));
            } else {
                assert(q[m1] == ps[m1 - 1]);
                assert(q[m2] == ps[m2 - 1]);
                assert(ps[m1 - 1][i1] != ps[m2 - 1][i2]);
            }
        }
    } else {
        assert(q == ps);
        assert forall|m: int, i: int| 0 <= m < q.len() && 0 <= i < q[m].len() - 1 implies 0 <= #[trigger] q[m][i]
            < g.len() && !vis[q[m][i]] && fin[q[m][i]] by {
            assert(!vis[ps[m][i]]);
        }
    }
}

/// The endpoint pass keeps paths whose bodies are disjoint, unmarked when
/// it starts and marked when it ends.
proof fn lemma_endpoint_pass_fresh(g: Seq<bool>, w: int, h: int, eps: Seq<int>, k: int, vis: Seq<bool>)
    requires
        0 < w,
        g.len() == w * h,
        vis.len() == g.len(),
        forall|q: int| 0 <= q < eps.len() ==> 0 <= #[trigger] eps[q] < g.len(),
    ensures
        bodies_disjoint(endpoint_pass(g, w, h, eps, k, vis).1),
        bodies_fresh(endpoint_pass(g, w, h, eps, k, vis).1, g.len() as int, vis, endpoint_pass(g, w, h, eps, k, vis).0),
    decreases eps.len() - k,
{
    lemma_endpoint_pass_covers(g, w, h, eps, k, vis);
    if !(k >= eps.len() || k < 0) {
        let s = eps[k];
        if vis[s] {
            lemma_endpoint_pass_fresh(g, w, h, eps, k + 1, vis);
            assert(endpoint_pass(g, w, h, eps, k, vis) == endpoint_pass(g, w, h, eps, k + 1, vis));
        } else {
            let own = walk(g, w, h, vis, s);
            let nv = mark(vis, own);
            lemma_endpoint_pass_fresh(g, w, h, eps, k + 1, nv);
            lemma_endpoint_pass_covers(g, w, h, eps, k + 1, nv);
            let rest = endpoint_pass(g, w, h, eps, k + 1, nv);
            lemma_keep_trace_fresh(g, w, h, vis, s, rest.1, rest.0);
            assert(endpoint_pass(g, w, h, eps, k, vis).1 == keep_trace(trace(g, w, h, vis, s), rest.1));
        }
    }
}

/// The remnant pass keeps paths whose bodies are disjoint, unmarked when
/// it starts and marked when it ends.
proof fn lemma_remnant_pass_fresh(g: Seq<bool>, w: int, h: int, i: int, vis: Seq<bool>)
    requires
        0 < w,
        g.len() == w * h,
        vis.len() == g.len(),
        0 <= i,
    ensures
        bodies_disjoint(remnant_pass(g, w, h, i, vis).1),
        bodies_fresh(remnant_pass(g, w, h, i, vis).1, g.len() as int, vis, remnant_pass(g, w, h, i, vis).0),
    decreases g.len() - i,
{
    if i < g.len() {
        if interior(w, h, i) && g[i] && !vis[i] {
            let own = walk(g, w, h, vis, i);
            let nv = mark(vis, own);
            lemma_remnant_pass_fresh(g, w, h, i + 1, nv);
            lemma_remnant_pass_covers(g, w, h, i + 1, nv);
            let rest = remnant_pass(g, w, h, i + 1, nv);
            lemma_keep_trace_fresh(g, w, h, vis, i, rest.1, rest.0);
            assert(remnant_pass(g, w, h, i, vis).1 == keep_trace(trace(g, w, h, vis, i), rest.1));
        } else {
            lemma_remnant_pass_fresh(g, w, h, i + 1, vis);
            assert(remnant_pass(g, w, h, i, vis) == remnant_pass(g, w, h, i + 1, vis));
        }
    }
}

/// No pixel is traced twice: leaving out the last point of each skeleton
/// path, which may close onto a pixel of a stroke already traced, no flat
/// index occurs twice over all the paths.
pub proof fn law_skeleton_path_bodies_disjoint(g: Seq<bool>, w: int, h: int)
    requires
        g.len() == w * h,
    ensures
        bodies_disjoint(skeleton_paths(g, w, h)),
{
    if w >= 3 && h >= 3 {
        let vis0 = Seq::new(g.len(), |j: int| false);
        let eps = endpoints_before(g, w, h, g.len() as int);
        lemma_endpoints_set(g, w, h, g.len() as int);
        let first = endpoint_pass(g, w, h, eps, 0, vis0);
        lemma_endpoint_pass_fresh(g, w, h, eps, 0, vis0);
        lemma_endpoint_pass_covers(g, w, h, eps, 0, vis0);
        lemma_remnant_pass_fresh(g, w, h, 0, first.0);
        let second = remnant_pass(g, w, h, 0, first.0);
        let all = skeleton_paths(g, w, h);
        assert(all == first.1 + second.1);
        let n1 = first.1.len();
        assert forall|m1: int, i1: int, m2: int, i2: int|
            0 <= m1 < all.len() && 0 <= m2 < all.len() && 0 <= i1 < all[m1].len() - 1 && 0 <= i2 < all[m2].len() - 1
                && (m1 != m2 || i1 != i2) implies #[trigger] all[m1][i1] != #[trigger] all[m2][i2] by {
            if m1 < n1 && m2 < n1 {
                assert(all[m1] == first.1[m1]);
                assert(all[m2] == first.1[m2]);
                assert(first.1[m1][i1] != first.1[m2][i2]);
            } else if m1 >= n1 && m2 >= n1 {
                assert(all[m1] == second.1[m1 - n1]);
                assert(all[m2] == second.1[m2 - n1]);
                assert(second.1[m1 - n1][i1] != second.1[m2 - n1][i2]);
            } else if m1 < n1 {
                assert(all[m1] == first.1[m1]);
                assert(all[m2] == second.1[m2 - n1]);
                assert(first.0[first.1[m1][i1]]);
                assert(!first.0[second.1[m2 - n1][i2]]);
            } else {
                assert(all[m2] == first.1[m2]);
                assert(all[m1] == second.1[m1 - n1]);
                assert(first.0[first.1[m2][i2]]);
                assert(!first.0[second.1[m1 - n1][i1]]);
            }
        }
    } else {
        assert(skeleton_paths(g, w, h) == Seq::<Seq<int>>::empty());
    }
}

/// The image pixel of flat index `j` in a grid padded by one cell on every
/// side: column and row, each less one.
pub open spec fn pixel_of(w: int, j: int) -> (i64, i64) {
    ((col(w, j) - 1) as i64, (row(w, j) - 1) as i64)
}

/// The image pixels of a path of flat indices.
pub open spec fn pixel_path(w: int, p: Seq<int>) -> Seq<(i64, i64)> {
    p.map_values(|j: int| pixel_of(w, j))
}

/// Every walked index lies inside the grid.
pub proof fn lemma_walk_in_grid(g: Seq<bool>, w: int, h: int, vis: Seq<bool>, cur: int)
    requires
        0 < w,
        g.len() == w * h,
        vis.len() == g.len(),
        0 <= cur < g.len(),
    ensures
        walk(g, w, h, vis, cur).len() >= 1,
        walk(g, w, h, vis, cur)[0] == cur,
        forall|m: int| 0 <= m < walk(g, w, h, vis, cur).len() ==> 0 <= #[trigger] walk(g, w, h, vis, cur)[m] < g.len(),
    decreases count_false(vis),
{
    if !vis[cur] {
        let vis1 = vis.update(cur, true);
        let ns = set_neighbors(g, w, h, cur);
        match first_unvisited(ns, vis1) {
            Some(nx) => {
                lemma_count_false_mark(vis, cur);
                lemma_first_unvisited(ns, vis1);
                lemma_set_neighbors_valid(g, w, h, cur, 0);
                let m0 = choose|m: int| 0 <= m < ns.len() && ns[m] == nx;
                assert(0 <= ns[m0] < w * h);
                lemma_walk_in_grid(g, w, h, vis1, nx);
                let rest = walk(g, w, h, vis1, nx);
                assert forall|m: int| 0 <= m < walk(g, w, h, vis, cur).len() implies 0
                    <= #[trigger] walk(g, w, h, vis, cur)[m] < g.len() by {
                    if m > 0 {
                        assert(walk(g, w, h, vis, cur)[m] == rest[m - 1]);
                    }
                }
            },
            None => {},
        }
    }
}

/// The first entry other than `avoid` is an entry.
pub proof fn lemma_first_other_member(ns: Seq<int>, avoid: int)
    ensures
        first_other(ns, avoid) matches Some(j) ==> exists|m: int| 0 <= m < ns.len() && ns[m] == j,
    decreases ns.len(),
{
    if ns.len() > 0 && ns[0] == avoid {
        lemma_first_other_member(ns.drop_first(), avoid);
        if first_other(ns, avoid) is Some {
            let j = first_other(ns, avoid).unwrap();
            let m = choose|m: int| 0 <= m < ns.drop_first().len() && ns.drop_first()[m] == j;
            assert(ns[m + 1] == j);
        }
    } else if ns.len() > 0 {
        assert(ns[0] == ns[0]);
    }
}

/// The points of each path.
pub open spec fn point_paths(ps: Seq<Vec<(i64, i64)>>) -> Seq<Seq<(i64, i64)>> {
    ps.map_values(|p: Vec<(i64, i64)>| p@)
}

/// Each path of grid cells as image pixels, in a grid `w` cells wide and
/// padded by one cell on every side.
pub open spec fn pixel_paths(w: int, sk: Seq<Seq<int>>) -> Seq<Seq<(i64, i64)>> {
    sk.map_values(|t: Seq<int>| pixel_path(w, t))
}

/// The skeleton paths of `grid`, as image pixels (the grid is padded by
/// one cell on every side).
pub fn extract_paths(grid: &FlatGrid) -> (r: Vec<Vec<(i64, i64)>>)
    requires
        grid.wf(),
    ensures
        point_paths(r@) == pixel_paths(
            grid.width as int,
            skeleton_paths(grid.data@, grid.width as int, grid.height as int),
        ),
{
    let idx = extract_path_indices(grid);
    let ghost sk = skeleton_paths(grid.data@, grid.width as int, grid.height as int);
    let w = grid.width;
    let n: usize = grid.data.len();
    let mut out: Vec<Vec<(i64, i64)>> = Vec::new();
    let np = idx.len();
    let mut p: usize = 0;
    while p < np
        invariant
            np == idx@.len(),
            p <= np,
            paths_view(idx@) == sk,
            sk == skeleton_paths(grid.data@, grid.width as int, grid.height as int),
            w == grid.width,
            grid.wf(),
            n == grid.data@.len(),
            out@.len() == p,
            forall|a: int| 0 <= a < p ==> (#[trigger] out@[a])@ == pixel_path(w as int, sk[a]),
        decreases np - p,
    {
        let path = &idx[p];
        let ghost t = sk[p as int];
        assert(ints(path@) == t);
        proof {
            assert(sk.len() == np as int);
            assert(w >= 3 && grid.height >= 3);
            assert(w as int * 3 <= w as int * grid.height as int) by (nonlinear_arith)
                requires grid.height >= 3, w >= 3;
        }
        let mut pts: Vec<(i64, i64)> = Vec::new();
        let len = path.len();
        let mut q: usize = 0;
        while q < len
            invariant
                len == path@.len(),
                q <= len,
                ints(path@) == t,
                pts@ == pixel_path(w as int, t).subrange(0, q as int),
                w >= 3,
                w as int * 3 <= usize::MAX,
            decreases len - q,
        {
            let j = path[q];
            let x = j % w;
            let y = j / w;
            proof {
                vstd::arithmetic::div_mod::lemma_div_is_ordered_by_denominator(j as int, 3, w as int);
                assert(x < w);
                assert(usize::MAX / 3 <= i64::MAX);
                assert(y as int <= j as int / 3);
            }
            pts.push(((x as i64) - 1, (y as i64) - 1));
            proof {
                assert(pts@ =~= pixel_path(w as int, t).subrange(0, q + 1));
            }
            q = q + 1;
        }
        proof {
            assert(pts@ =~= pixel_path(w as int, t));
        }
        out.push(pts);
        p = p + 1;
    }
    proof {
        assert(point_paths(out@) =~= pixel_paths(w as int, sk));
    }
    out
}

} // verus!
