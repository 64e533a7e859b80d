//! Connected components of the set cells of a grid, by orthogonal steps or
//! by steps in all eight directions.

use vstd::prelude::*;
use super::grid::{cell, grid_ok, idx, in_grid, lemma_cell, neighbors8, set_at};
use super::flood::{count_false, lemma_count_false_mark};

verus! {

/// `(bx, by)` is a neighbour of `(ax, ay)`: one step away orthogonally, or,
/// when `diag`, diagonally.
pub open spec fn adjacent(diag: bool, ax: int, ay: int, bx: int, by: int) -> bool {
    let dx = bx - ax;
    let dy = by - ay;
    -1 <= dx <= 1 && -1 <= dy <= 1 && (dx != 0 || dy != 0) && (diag || dx == 0 || dy == 0)
}

/// `p` is a walk over cells set in `mask`, each step to a neighbour.
pub open spec fn is_path(mask: Seq<bool>, w: int, h: int, diag: bool, p: Seq<(int, int)>) -> bool {
    &&& p.len() > 0
    &&& forall|i: int| 0 <= i < p.len() ==> set_at(mask, w, h, (#[trigger] p[i]).0, p[i].1)
    &&& forall|i: int|
        0 <= i < p.len() - 1 ==> adjacent(diag, (#[trigger] p[i]).0, p[i].1, p[i + 1].0, p[i + 1].1)
}

/// A walk over cells set in `mask` leads from `a` to `b`.
pub open spec fn connected(
    mask: Seq<bool>,
    w: int,
    h: int,
    diag: bool,
    a: (int, int),
    b: (int, int),
) -> bool {
    exists|p: Seq<(int, int)>| #[trigger] is_path(mask, w, h, diag, p) && p[0] == a && p.last() == b
}

/// A set cell is connected to itself.
pub proof fn lemma_connected_refl(mask: Seq<bool>, w: int, h: int, diag: bool, a: (int, int))
    requires
        set_at(mask, w, h, a.0, a.1),
    ensures
        connected(mask, w, h, diag, a, a),
{
    let p = seq![a];
    assert(is_path(mask, w, h, diag, p));
}

/// A walk extends by one step to a set neighbour.
pub proof fn lemma_connected_step(
    mask: Seq<bool>,
    w: int,
    h: int,
    diag: bool,
    a: (int, int),
    b: (int, int),
    c: (int, int),
)
    requires
        connected(mask, w, h, diag, a, b),
        set_at(mask, w, h, c.0, c.1),
        adjacent(diag, b.0, b.1, c.0, c.1),
    ensures
        connected(mask, w, h, diag, a, c),
{
    let p = choose|p: Seq<(int, int)>| #[trigger] is_path(mask, w, h, diag, p) && p[0] == a && p.last() == b;
    let q = p.push(c);
    assert forall|i: int| 0 <= i < q.len() implies set_at(mask, w, h, (#[trigger] q[i]).0, q[i].1) by {
        if i < p.len() {
            assert(q[i] == p[i]);
        }
    }
    assert forall|i: int| 0 <= i < q.len() - 1 implies adjacent(
        diag,
        (#[trigger] q[i]).0,
        q[i].1,
        q[i + 1].0,
        q[i + 1].1,
    ) by {
        assert(q[i] == p[i]);
        if i < p.len() - 1 {
            assert(q[i + 1] == p[i + 1]);
        }
    }
    assert(is_path(mask, w, h, diag, q));
}

/// A walk can be taken backwards.
pub proof fn lemma_connected_symm(
    mask: Seq<bool>,
    w: int,
    h: int,
    diag: bool,
    a: (int, int),
    b: (int, int),
)
    requires
        connected(mask, w, h, diag, a, b),
    ensures
        connected(mask, w, h, diag, b, a),
{
    let p = choose|p: Seq<(int, int)>| #[trigger] is_path(mask, w, h, diag, p) && p[0] == a && p.last() == b;
    let n = p.len();
    let q = Seq::new(n, |i: int| p[n - 1 - i]);
    assert forall|i: int| 0 <= i < q.len() implies set_at(mask, w, h, (#[trigger] q[i]).0, q[i].1) by {
        assert(q[i] == p[n - 1 - i]);
    }
    assert forall|i: int| 0 <= i < q.len() - 1 implies adjacent(
        diag,
        (#[trigger] q[i]).0,
        q[i].1,
        q[i + 1].0,
        q[i + 1].1,
    ) by {
        let j = n - 2 - i;
        assert(q[i] == p[j + 1]);
        assert(q[i + 1] == p[j]);
        assert(adjacent(diag, p[j].0, p[j].1, p[j + 1].0, p[j + 1].1));
    }
    assert(is_path(mask, w, h, diag, q));
}

/// Cells whose set neighbours are all visited.
pub open spec fn closed(
    mask: Seq<bool>,
    vis: Seq<bool>,
    w: int,
    h: int,
    diag: bool,
    x: int,
    y: int,
) -> bool {
    forall|nx: int, ny: int|
        #[trigger] adjacent(diag, x, y, nx, ny) && set_at(mask, w, h, nx, ny) ==> set_at(
            vis,
            w,
            h,
            nx,
            ny,
        )
}

/// A visited set made of whole components: whatever a visited cell is
/// connected to is visited too.
pub open spec fn whole_components(mask: Seq<bool>, vis: Seq<bool>, w: int, h: int, diag: bool) -> bool {
    forall|a: (int, int), b: (int, int)|
        #[trigger] set_at(vis, w, h, a.0, a.1) && #[trigger] connected(mask, w, h, diag, a, b)
            ==> set_at(vis, w, h, b.0, b.1)
}

/// The cells as integer pairs.
pub open spec fn as_points(cells: Seq<(i32, i32)>) -> Seq<(int, int)> {
    cells.map_values(|c: (i32, i32)| (c.0 as int, c.1 as int))
}

/// The `k`-th neighbour of `c` in the order the search looks at them: right,
/// left, down, up, then the four diagonal ones.
pub open spec fn neighbor_at(c: (int, int), k: int) -> (int, int) {
    if k == 0 {
        (c.0 + 1, c.1)
    } else if k == 1 {
        (c.0 - 1, c.1)
    } else if k == 2 {
        (c.0, c.1 + 1)
    } else if k == 3 {
        (c.0, c.1 - 1)
    } else if k == 4 {
        (c.0 + 1, c.1 + 1)
    } else if k == 5 {
        (c.0 + 1, c.1 - 1)
    } else if k == 6 {
        (c.0 - 1, c.1 + 1)
    } else {
        (c.0 - 1, c.1 - 1)
    }
}

/// How many neighbours the search looks at: four, or eight with diagonals.
pub open spec fn neighbor_count(diag: bool) -> int {
    if diag {
        8
    } else {
        4
    }
}

/// The listing `l` after the first `k` neighbours of `c` have been looked
/// at: each one that is set in `mask` and not yet listed is appended.
pub open spec fn expand(
    mask: Seq<bool>,
    w: int,
    h: int,
    c: (int, int),
    l: Seq<(i32, i32)>,
    k: int,
) -> Seq<(i32, i32)>
    decreases k,
{
    if k <= 0 {
        l
    } else {
        let l1 = expand(mask, w, h, c, l, k - 1);
        let q = neighbor_at(c, k - 1);
        if set_at(mask, w, h, q.0, q.1) && !as_points(l1).contains(q) {
            l1.push((q.0 as i32, q.1 as i32))
        } else {
            l1
        }
    }
}

/// Breadth-first listing: from position `head` on, the neighbours of each
/// listed cell are looked at in turn (for at most `fuel` cells).
pub open spec fn bfs_listing(
    mask: Seq<bool>,
    w: int,
    h: int,
    diag: bool,
    l: Seq<(i32, i32)>,
    head: int,
    fuel: nat,
) -> Seq<(i32, i32)>
    decreases fuel,
{
    if fuel == 0 || head < 0 || head >= l.len() {
        l
    } else {
        bfs_listing(
            mask,
            w,
            h,
            diag,
            expand(mask, w, h, (l[head].0 as int, l[head].1 as int), l, neighbor_count(diag)),
            head + 1,
            (fuel - 1) as nat,
        )
    }
}

/// The cells of the component of `a` in the order a breadth-first search
/// from `a` meets them.
#[verifier::opaque]
pub open spec fn component_order(mask: Seq<bool>, w: int, h: int, diag: bool, a: (int, int)) -> Seq<
    (i32, i32),
> {
    bfs_listing(mask, w, h, diag, seq![(a.0 as i32, a.1 as i32)], 0, (w * h) as nat)
}

proof fn lemma_count_false_le(s: Seq<bool>)
    ensures
        count_false(s) <= s.len(),
    decreases s.len(),
{
    if s.len() > 0 {
        lemma_count_false_le(s.drop_last());
    }
}

spec fn bfs_inv(
    mask: Seq<bool>,
    w: int,
    h: int,
    diag: bool,
    s: (int, int),
    vis0: Seq<bool>,
    vis: Seq<bool>,
    cells: Seq<(i32, i32)>,
    stack: Seq<(i32, i32)>,
    pending: Option<(int, int)>,
) -> bool {
    &&& vis.len() == vis0.len()
    &&& forall|x: int, y: int|
        in_grid(w, h, x, y) ==> (#[trigger] vis[cell(w, x, y)] <==> (vis0[cell(w, x, y)]
            || as_points(cells).contains((x, y))))
    &&& forall|k: int|
        0 <= k < cells.len() ==> in_grid(w, h, (#[trigger] cells[k]).0 as int, cells[k].1 as int)
            && connected(mask, w, h, diag, s, (cells[k].0 as int, cells[k].1 as int))
            && !vis0[cell(w, cells[k].0 as int, cells[k].1 as int)]
    &&& forall|k1: int, k2: int|
        0 <= k1 < cells.len() && 0 <= k2 < cells.len() && k1 != k2 ==> #[trigger] cells[k1]
            != #[trigger] cells[k2]
    &&& forall|j: int| 0 <= j < stack.len() ==> cells.contains(#[trigger] stack[j])
    &&& forall|k: int|
        0 <= k < cells.len() ==> closed(
            mask,
            vis,
            w,
            h,
            diag,
            (#[trigger] cells[k]).0 as int,
            cells[k].1 as int,
        ) || stack.contains(cells[k]) || pending == Some((cells[k].0 as int, cells[k].1 as int))
}

/// A set neighbour of a cell connected to the start lies outside the
/// components visited before the search.
proof fn lemma_neighbor_not_seen(
    mask: Seq<bool>,
    w: int,
    h: int,
    diag: bool,
    s: (int, int),
    vis0: Seq<bool>,
    c: (int, int),
    n: (int, int),
)
    requires
        grid_ok(mask.len() as int, w, h),
        vis0.len() == mask.len(),
        whole_components(mask, vis0, w, h, diag),
        !vis0[cell(w, s.0, s.1)],
        in_grid(w, h, s.0, s.1),
        connected(mask, w, h, diag, s, c),
        adjacent(diag, c.0, c.1, n.0, n.1),
        set_at(mask, w, h, n.0, n.1),
    ensures
        !vis0[cell(w, n.0, n.1)],
{
    lemma_connected_step(mask, w, h, diag, s, c, n);
    lemma_connected_symm(mask, w, h, diag, s, n);
    if vis0[cell(w, n.0, n.1)] {
        assert(set_at(vis0, w, h, n.0, n.1));
        assert(connected(mask, w, h, diag, n, s));
        assert(set_at(vis0, w, h, s.0, s.1));
    }
}

/// Mark neighbour `(nx, ny)` of the cell being processed when it is set in
/// the mask and not yet visited.
fn mark_neighbor(
    mask: &[bool],
    w: i32,
    h: i32,
    diag: bool,
    visited: &mut Vec<bool>,
    cells: &mut Vec<(i32, i32)>,
    nx: i32,
    ny: i32,
    Ghost(s): Ghost<(int, int)>,
    Ghost(vis0): Ghost<Seq<bool>>,
    Ghost(c): Ghost<(int, int)>,
    Ghost(head): Ghost<int>,
)
    requires
        grid_ok(mask@.len() as int, w as int, h as int),
        vis0.len() == mask@.len(),
        whole_components(mask@, vis0, w as int, h as int, diag),
        !vis0[cell(w as int, s.0, s.1)],
        in_grid(w as int, h as int, s.0, s.1),
        in_grid(w as int, h as int, nx as int, ny as int),
        connected(mask@, w as int, h as int, diag, s, c),
        adjacent(diag, c.0, c.1, nx as int, ny as int),
        0 <= head <= old(cells)@.len(),
        bfs_inv(
            mask@,
            w as int,
            h as int,
            diag,
            s,
            vis0,
            old(visited)@,
            old(cells)@,
            old(cells)@.subrange(head, old(cells)@.len() as int),
            Some(c),
        ),
    ensures
        bfs_inv(
            mask@,
            w as int,
            h as int,
            diag,
            s,
            vis0,
            final(visited)@,
            final(cells)@,
            final(cells)@.subrange(head, final(cells)@.len() as int),
            Some(c),
        ),
        set_at(mask@, w as int, h as int, nx as int, ny as int) ==> set_at(
            final(visited)@,
            w as int,
            h as int,
            nx as int,
            ny as int,
        ),
        forall|x: int, y: int|
            set_at(old(visited)@, w as int, h as int, x, y) ==> #[trigger] set_at(
                final(visited)@,
                w as int,
                h as int,
                x,
                y,
            ),
        final(cells)@ == (if set_at(mask@, w as int, h as int, nx as int, ny as int) && !as_points(
            old(cells)@,
        ).contains((nx as int, ny as int)) {
            old(cells)@.push((nx, ny))
        } else {
            old(cells)@
        }),
        count_false(final(visited)@) + final(cells)@.len() == count_false(old(visited)@) + old(
            cells,
        )@.len(),
{
    let ni = idx(w, h, nx, ny);
    if !visited[ni] && mask[ni] {
        let ghost vis = visited@;
        let ghost cs = cells@;
        let ghost st = cs.subrange(head, cs.len() as int);
        let ghost n = (nx as int, ny as int);
        proof {
            lemma_count_false_mark(vis, ni as int);
            lemma_cell(w as int, h as int, nx as int, ny as int);
            lemma_connected_step(mask@, w as int, h as int, diag, s, c, n);
            assert(!as_points(cs).contains(n));
        }
        visited.set(ni, true);
        cells.push((nx, ny));
        proof {
            let vis2 = visited@;
            let cs2 = cells@;
            let st2 = cs2.subrange(head, cs2.len() as int);
            assert(st2 =~= st.push((nx, ny)));
            assert(cs2 =~= cs.push((nx, ny)));
            assert(as_points(cs2) =~= as_points(cs).push(n));
            assert forall|x: int, y: int| in_grid(w as int, h as int, x, y) implies (
            #[trigger] vis2[cell(w as int, x, y)] <==> (vis0[cell(w as int, x, y)] || as_points(
                cs2,
            ).contains((x, y)))) by {
                lemma_cell(w as int, h as int, x, y);
                if x == nx && y == ny {
                    assert(as_points(cs2)[cs.len() as int] == n);
                } else {
                    assert(cell(w as int, x, y) != ni);
                    if as_points(cs).contains((x, y)) {
                        let k = choose|k: int| 0 <= k < as_points(cs).len() && as_points(cs)[k] == (x, y);
                        assert(as_points(cs2)[k] == (x, y));
                    }
                    if as_points(cs2).contains((x, y)) {
                        let k = choose|k: int| 0 <= k < as_points(cs2).len() && as_points(cs2)[k] == (x, y);
                        assert(k < cs.len());
                        assert(as_points(cs)[k] == (x, y));
                    }
                }
            }
            assert forall|k: int| 0 <= k < cs2.len() implies in_grid(
                w as int,
                h as int,
                (#[trigger] cs2[k]).0 as int,
                cs2[k].1 as int,
            ) && connected(mask@, w as int, h as int, diag, s, (cs2[k].0 as int, cs2[k].1 as int))
                && !vis0[cell(w as int, cs2[k].0 as int, cs2[k].1 as int)] by {
                if k < cs.len() {
                    assert(cs2[k] == cs[k]);
                } else {
                    assert(vis0[ni as int] ==> vis[ni as int]);
                }
            }
            assert forall|k1: int, k2: int|
                0 <= k1 < cs2.len() && 0 <= k2 < cs2.len() && k1 != k2 implies #[trigger] cs2[k1]
                != #[trigger] cs2[k2] by {
                if k1 == cs.len() {
                    assert(as_points(cs)[k2] == (cs[k2].0 as int, cs[k2].1 as int));
                } else if k2 == cs.len() {
                    assert(as_points(cs)[k1] == (cs[k1].0 as int, cs[k1].1 as int));
                } else {
                    assert(cs2[k1] == cs[k1] && cs2[k2] == cs[k2]);
                }
            }
            assert forall|j: int| 0 <= j < st2.len() implies cs2.contains(#[trigger] st2[j]) by {
                if j < st.len() {
                    assert(st2[j] == st[j]);
                    let k = choose|k: int| 0 <= k < cs.len() && cs[k] == st[j];
                    assert(cs2[k] == cs[k]);
                } else {
                    assert(cs2[cs.len() as int] == st2[j]);
                }
            }
            assert forall|x: int, y: int|
                set_at(vis, w as int, h as int, x, y) implies #[trigger] set_at(
                vis2,
                w as int,
                h as int,
                x,
                y,
            ) by {
                lemma_cell(w as int, h as int, x, y);
            }
            assert forall|k: int| 0 <= k < cs2.len() implies closed(
                mask@,
                vis2,
                w as int,
                h as int,
                diag,
                (#[trigger] cs2[k]).0 as int,
                cs2[k].1 as int,
            ) || st2.contains(cs2[k]) || Some(c) == Some((cs2[k].0 as int, cs2[k].1 as int)) by {
                if k == cs.len() {
                    assert(st2[st.len() as int] == cs2[k]);
                } else {
                    assert(cs2[k] == cs[k]);
                    if st.contains(cs[k]) {
                        let j = choose|j: int| 0 <= j < st.len() && st[j] == cs[k];
                        assert(st2[j] == st[j]);
                    }
                    if closed(mask@, vis, w as int, h as int, diag, cs[k].0 as int, cs[k].1 as int) {
                        assert forall|x: int, y: int|
                            #[trigger] adjacent(diag, cs[k].0 as int, cs[k].1 as int, x, y) && set_at(
                                mask@,
                                w as int,
                                h as int,
                                x,
                                y,
                            ) implies set_at(vis2, w as int, h as int, x, y) by {
                            assert(set_at(vis, w as int, h as int, x, y));
                        }
                    }
                }
            }
        }
    } else {
        proof {
            let n = (nx as int, ny as int);
            lemma_cell(w as int, h as int, nx as int, ny as int);
            if set_at(mask@, w as int, h as int, nx as int, ny as int) {
                lemma_neighbor_not_seen(mask@, w as int, h as int, diag, s, vis0, c, n);
            }
        }
    }
}

/// Mark as visited, and return, the cells connected to `(sx, sy)` through
/// cells set in `mask` (by orthogonal steps, or in all eight directions
/// when `diag`).
///
/// The start is set and not yet visited, and the visited cells make whole
/// components; the component of the start is added to them, and its cells
/// are returned once each, in the order a breadth-first search meets them.
pub fn collect_component(
    mask: &[bool],
    grid_w: i32,
    grid_h: i32,
    diag: bool,
    visited: &mut Vec<bool>,
    sx: i32,
    sy: i32,
) -> (cells: Vec<(i32, i32)>)
    requires
        grid_ok(mask@.len() as int, grid_w as int, grid_h as int),
        old(visited)@.len() == mask@.len(),
        set_at(mask@, grid_w as int, grid_h as int, sx as int, sy as int),
        !old(visited)@[cell(grid_w as int, sx as int, sy as int)],
        whole_components(mask@, old(visited)@, grid_w as int, grid_h as int, diag),
    ensures
        final(visited)@.len() == mask@.len(),
        forall|x: int, y: int|
            in_grid(grid_w as int, grid_h as int, x, y) ==> (#[trigger] final(visited)@[cell(
                grid_w as int,
                x,
                y,
            )] <==> (old(visited)@[cell(grid_w as int, x, y)] || connected(
                mask@,
                grid_w as int,
                grid_h as int,
                diag,
                (sx as int, sy as int),
                (x, y),
            ))),
        whole_components(mask@, final(visited)@, grid_w as int, grid_h as int, diag),
        forall|k: int|
            0 <= k < cells@.len() ==> in_grid(
                grid_w as int,
                grid_h as int,
                (#[trigger] cells@[k]).0 as int,
                cells@[k].1 as int,
            ) && connected(
                mask@,
                grid_w as int,
                grid_h as int,
                diag,
                (sx as int, sy as int),
                (cells@[k].0 as int, cells@[k].1 as int),
            ),
        forall|x: int, y: int|
            #[trigger] connected(
                mask@,
                grid_w as int,
                grid_h as int,
                diag,
                (sx as int, sy as int),
                (x, y),
            ) ==> as_points(cells@).contains((x, y)),
        forall|k1: int, k2: int|
            0 <= k1 < cells@.len() && 0 <= k2 < cells@.len() && k1 != k2 ==> #[trigger] cells@[k1]
                != #[trigger] cells@[k2],
        cells@ == component_order(mask@, grid_w as int, grid_h as int, diag, (sx as int, sy as int)),

{
    let w = grid_w;
    let h = grid_h;
    let ghost wi = w as int;
    let ghost hi = h as int;
    let ghost s = (sx as int, sy as int);
    let ghost vis0 = visited@;
    let si = idx(w, h, sx, sy);
    proof {
        lemma_cell(wi, hi, sx as int, sy as int);
        lemma_connected_refl(mask@, wi, hi, diag, s);
        lemma_count_false_mark(vis0, si as int);
        lemma_count_false_le(vis0);
        reveal(component_order);
    }
    visited.set(si, true);
    let mut cells: Vec<(i32, i32)> = Vec::new();
    cells.push((sx, sy));
    let mut head: usize = 0;
    proof {
        let cs = cells@;
        assert(cs =~= seq![(sx, sy)]);
        assert(as_points(cs) =~= seq![s]);
        assert(as_points(cs)[0] == s);
        assert forall|x: int, y: int| in_grid(wi, hi, x, y) implies (#[trigger] visited@[cell(
            wi,
            x,
            y,
        )] <==> (vis0[cell(wi, x, y)] || as_points(cs).contains((x, y)))) by {
            lemma_cell(wi, hi, x, y);
            if x == sx && y == sy {
                assert(as_points(cs)[0] == (x, y));
            }
        }
        let st = cs.subrange(0, cs.len() as int);
        assert(st =~= cs);
        assert(st[0] == cs[0]);
        assert(st.contains(cs[0]));
        assert(cs.contains(st[0]));
    }
    while head < cells.len()
        invariant
            grid_ok(mask@.len() as int, wi, hi),
            wi == w,
            hi == h,
            vis0.len() == mask@.len(),
            whole_components(mask@, vis0, wi, hi, diag),
            in_grid(wi, hi, s.0, s.1),
            !vis0[cell(wi, s.0, s.1)],
            as_points(cells@).contains(s),
            head <= cells@.len(),
            count_false(visited@) + cells@.len() == count_false(vis0),
            count_false(vis0) <= wi * hi,
            component_order(mask@, wi, hi, diag, s) == bfs_listing(
                mask@,
                wi,
                hi,
                diag,
                cells@,
                head as int,
                (wi * hi - head) as nat,
            ),
            bfs_inv(
                mask@,
                wi,
                hi,
                diag,
                s,
                vis0,
                visited@,
                cells@,
                cells@.subrange(head as int, cells@.len() as int),
                None,
            ),
        decreases 2 * count_false(visited@) + cells@.len() - head,
    {
        let (cx, cy) = cells[head];
        let ghost cs0 = cells@;
        let ghost st0 = cs0.subrange(head as int, cs0.len() as int);
        let ghost c = (cx as int, cy as int);
        let ghost h0 = head as int;
        head = head + 1;
        proof {
            let cs = cells@;
            let st1 = cs.subrange(head as int, cs.len() as int);
            assert(st1 =~= st0.drop_first());
            assert(st0[0] == cs[h0]);
            assert(in_grid(wi, hi, cs[h0].0 as int, cs[h0].1 as int));
            assert forall|j: int| 0 <= j < st1.len() implies cs.contains(#[trigger] st1[j]) by {
                assert(st1[j] == cs[head + j]);
            }
            assert forall|k: int| 0 <= k < cs.len() implies closed(
                mask@,
                visited@,
                wi,
                hi,
                diag,
                (#[trigger] cs[k]).0 as int,
                cs[k].1 as int,
            ) || st1.contains(cs[k]) || Some(c) == Some((cs[k].0 as int, cs[k].1 as int)) by {
                if !closed(mask@, visited@, wi, hi, diag, cs[k].0 as int, cs[k].1 as int) {
                    assert(st0.contains(cs[k]));
                    let j = choose|j: int| 0 <= j < st0.len() && st0[j] == cs[k];
                    if j > 0 {
                        assert(st1[j - 1] == st0[j]);
                    }
                }
            }
        }
        let ghost measure0 = 2 * count_false(visited@) + cells@.len() - h0;
        let nbs = neighbors8(cx, cy);
        let count: usize = if diag {
            8
        } else {
            4
        };
        let mut k: usize = 0;
        while k < count
            invariant
                grid_ok(mask@.len() as int, wi, hi),
                wi == w,
                hi == h,
                vis0.len() == mask@.len(),
                whole_components(mask@, vis0, wi, hi, diag),
                in_grid(wi, hi, s.0, s.1),
                !vis0[cell(wi, s.0, s.1)],
                in_grid(wi, hi, cx as int, cy as int),
                connected(mask@, wi, hi, diag, s, c),
                c == (cx as int, cy as int),
                count == (if diag { 8usize } else { 4usize }),
                count as int == neighbor_count(diag),
                0 <= k <= count,
                nbs@ == seq![
                    ((cx + 1) as i32, cy),
                    ((cx - 1) as i32, cy),
                    (cx, (cy + 1) as i32),
                    (cx, (cy - 1) as i32),
                    ((cx + 1) as i32, (cy + 1) as i32),
                    ((cx + 1) as i32, (cy - 1) as i32),
                    ((cx - 1) as i32, (cy + 1) as i32),
                    ((cx - 1) as i32, (cy - 1) as i32),
                ],
                as_points(cells@).contains(s),
                1 <= head <= cs0.len() <= cells@.len(),
                cells@ == expand(mask@, wi, hi, c, cs0, k as int),
                count_false(visited@) + cells@.len() == count_false(vis0),
                bfs_inv(
                    mask@,
                    wi,
                    hi,
                    diag,
                    s,
                    vis0,
                    visited@,
                    cells@,
                    cells@.subrange(head as int, cells@.len() as int),
                    Some(c),
                ),
                forall|k2: int|
                    0 <= k2 < k ==> (set_at(mask@, wi, hi, nbs@[k2].0 as int, nbs@[k2].1 as int)
                        ==> set_at(visited@, wi, hi, nbs@[k2].0 as int, nbs@[k2].1 as int)),
                2 * count_false(visited@) + cells@.len() - head < measure0,
            decreases count - k,
        {
            let (nx, ny) = nbs[k];
            let ghost q = neighbor_at(c, k as int);
            assert(q == (nx as int, ny as int));
            if nx >= 0 && ny >= 0 && nx < w && ny < h {
                let ghost vb = visited@;
                let ghost cb = cells@;
                mark_neighbor(
                    mask,
                    w,
                    h,
                    diag,
                    visited,
                    &mut cells,
                    nx,
                    ny,
                    Ghost(s),
                    Ghost(vis0),
                    Ghost(c),
                    Ghost(head as int),
                );
                proof {
                    assert forall|k2: int|
                        0 <= k2 < k implies (set_at(
                        mask@,
                        wi,
                        hi,
                        nbs@[k2].0 as int,
                        nbs@[k2].1 as int,
                    ) ==> set_at(visited@, wi, hi, nbs@[k2].0 as int, nbs@[k2].1 as int)) by {
                        if set_at(mask@, wi, hi, nbs@[k2].0 as int, nbs@[k2].1 as int) {
                            assert(set_at(vb, wi, hi, nbs@[k2].0 as int, nbs@[k2].1 as int));
                        }
                    }
                    assert(as_points(cells@).contains(s)) by {
                        let j = choose|j: int| 0 <= j < as_points(cb).len() && as_points(cb)[j] == s;
                        assert(cells@[j] == cb[j]) by {
                            assert(j < cb.len());
                        }
                        assert(as_points(cells@)[j] == s);
                    }
                    assert(cells@ == expand(mask@, wi, hi, c, cs0, k + 1));
                }
            } else {
                proof {
                    assert(!set_at(mask@, wi, hi, q.0, q.1));
                    assert(cells@ == expand(mask@, wi, hi, c, cs0, k + 1));
                }
            }
            k = k + 1;
        }
        proof {
            assert(closed(mask@, visited@, wi, hi, diag, cx as int, cy as int)) by {
                assert forall|x: int, y: int|
                    #[trigger] adjacent(diag, cx as int, cy as int, x, y) && set_at(mask@, wi, hi, x, y)
                        implies set_at(visited@, wi, hi, x, y) by {
                    if x == cx + 1 && y == cy {
                        assert(nbs@[0] == (x as i32, y as i32));
                    } else if x == cx - 1 && y == cy {
                        assert(nbs@[1] == (x as i32, y as i32));
                    } else if x == cx && y == cy + 1 {
                        assert(nbs@[2] == (x as i32, y as i32));
                    } else if x == cx && y == cy - 1 {
                        assert(nbs@[3] == (x as i32, y as i32));
                    } else if x == cx + 1 && y == cy + 1 {
                        assert(nbs@[4] == (x as i32, y as i32));
                    } else if x == cx + 1 && y == cy - 1 {
                        assert(nbs@[5] == (x as i32, y as i32));
                    } else if x == cx - 1 && y == cy + 1 {
                        assert(nbs@[6] == (x as i32, y as i32));
                    } else {
                        assert(nbs@[7] == (x as i32, y as i32));
                    }
                }
            }
            let cs = cells@;
            let st = cs.subrange(head as int, cs.len() as int);
            assert forall|k2: int| 0 <= k2 < cs.len() implies closed(
                mask@,
                visited@,
                wi,
                hi,
                diag,
                (#[trigger] cs[k2]).0 as int,
                cs[k2].1 as int,
            ) || st.contains(cs[k2]) || None::<(int, int)> == Some(
                (cs[k2].0 as int, cs[k2].1 as int),
            ) by {}
            assert(cs0[h0] == (cx, cy));
            assert(wi * hi - h0 > 0);
            assert(bfs_listing(mask@, wi, hi, diag, cs0, h0, (wi * hi - h0) as nat) == bfs_listing(
                mask@,
                wi,
                hi,
                diag,
                cells@,
                head as int,
                (wi * hi - head) as nat,
            ));
        }
    }
    proof {
        assert(cells@.subrange(head as int, cells@.len() as int) =~= Seq::<(i32, i32)>::empty());
        lemma_bfs_complete(mask@, wi, hi, diag, s, vis0, visited@, cells@);
    }
    cells
}

proof fn lemma_bfs_complete(
    mask: Seq<bool>,
    w: int,
    h: int,
    diag: bool,
    s: (int, int),
    vis0: Seq<bool>,
    vis: Seq<bool>,
    cells: Seq<(i32, i32)>,
)
    requires
        grid_ok(mask.len() as int, w, h),
        vis0.len() == mask.len(),
        whole_components(mask, vis0, w, h, diag),
        in_grid(w, h, s.0, s.1),
        !vis0[cell(w, s.0, s.1)],
        as_points(cells).contains(s),
        bfs_inv(mask, w, h, diag, s, vis0, vis, cells, Seq::empty(), None),
    ensures
        forall|x: int, y: int|
            #[trigger] connected(mask, w, h, diag, s, (x, y)) ==> as_points(cells).contains((x, y)),
        forall|x: int, y: int|
            in_grid(w, h, x, y) ==> (#[trigger] vis[cell(w, x, y)] <==> (vis0[cell(w, x, y)]
                || connected(mask, w, h, diag, s, (x, y)))),
        whole_components(mask, vis, w, h, diag),
{
    assert forall|x: int, y: int|
        #[trigger] connected(mask, w, h, diag, s, (x, y)) implies as_points(cells).contains((x, y)) by {
        let p = choose|p: Seq<(int, int)>| #[trigger] is_path(mask, w, h, diag, p) && p[0] == s && p.last() == (x, y);
        lemma_path_in_cells(mask, w, h, diag, s, vis0, vis, cells, p, p.len() - 1);
    }
    assert forall|x: int, y: int| in_grid(w, h, x, y) implies (#[trigger] vis[cell(w, x, y)] <==> (
    vis0[cell(w, x, y)] || connected(mask, w, h, diag, s, (x, y)))) by {
        if as_points(cells).contains((x, y)) {
            let k = choose|k: int| 0 <= k < as_points(cells).len() && as_points(cells)[k] == (x, y);
            assert(cells[k].0 as int == x && cells[k].1 as int == y);
        }
    }
    assert forall|a: (int, int), b: (int, int)|
        #[trigger] set_at(vis, w, h, a.0, a.1) && #[trigger] connected(mask, w, h, diag, a, b) implies set_at(
        vis,
        w,
        h,
        b.0,
        b.1,
    ) by {
        let p = choose|p: Seq<(int, int)>| #[trigger] is_path(mask, w, h, diag, p) && p[0] == a && p.last() == b;
        assert(set_at(mask, w, h, p.last().0, p.last().1));
        if vis0[cell(w, a.0, a.1)] {
            assert(set_at(vis0, w, h, a.0, a.1));
            assert(set_at(vis0, w, h, b.0, b.1));
        } else {
            assert(connected(mask, w, h, diag, s, a));
            lemma_connected_trans(mask, w, h, diag, s, a, b);
            assert(connected(mask, w, h, diag, s, (b.0, b.1)));
        }
    }
}

/// Walks join end to end.
pub proof fn lemma_connected_trans(
    mask: Seq<bool>,
    w: int,
    h: int,
    diag: bool,
    a: (int, int),
    b: (int, int),
    c: (int, int),
)
    requires
        connected(mask, w, h, diag, a, b),
        connected(mask, w, h, diag, b, c),
    ensures
        connected(mask, w, h, diag, a, c),
{
    let p = choose|p: Seq<(int, int)>| #[trigger] is_path(mask, w, h, diag, p) && p[0] == a && p.last() == b;
    let q = choose|q: Seq<(int, int)>| #[trigger] is_path(mask, w, h, diag, q) && q[0] == b && q.last() == c;
    let r = p + q.drop_first();
    assert forall|i: int| 0 <= i < r.len() implies set_at(mask, w, h, (#[trigger] r[i]).0, r[i].1) by {
        if i < p.len() {
            assert(r[i] == p[i]);
        } else {
            assert(r[i] == q[i - p.len() + 1]);
        }
    }
    assert forall|i: int| 0 <= i < r.len() - 1 implies adjacent(
        diag,
        (#[trigger] r[i]).0,
        r[i].1,
        r[i + 1].0,
        r[i + 1].1,
    ) by {
        if i < p.len() - 1 {
            assert(r[i] == p[i]);
            assert(r[i + 1] == p[i + 1]);
        } else if i == p.len() - 1 {
            assert(r[i] == p[i]);
            assert(r[i + 1] == q[1]);
            assert(q[0] == p.last());
        } else {
            assert(r[i] == q[i - p.len() + 1]);
            assert(r[i + 1] == q[i - p.len() + 2]);
        }
    }
    assert(is_path(mask, w, h, diag, r));
    if q.len() == 1 {
        assert(r.last() == p.last());
    } else {
        assert(r.last() == q.last());
    }
}

proof fn lemma_path_in_cells(
    mask: Seq<bool>,
    w: int,
    h: int,
    diag: bool,
    s: (int, int),
    vis0: Seq<bool>,
    vis: Seq<bool>,
    cells: Seq<(i32, i32)>,
    p: Seq<(int, int)>,
    i: int,
)
    requires
        grid_ok(mask.len() as int, w, h),
        vis0.len() == mask.len(),
        whole_components(mask, vis0, w, h, diag),
        in_grid(w, h, s.0, s.1),
        !vis0[cell(w, s.0, s.1)],
        as_points(cells).contains(s),
        bfs_inv(mask, w, h, diag, s, vis0, vis, cells, Seq::empty(), None),
        is_path(mask, w, h, diag, p),
        p[0] == s,
        0 <= i < p.len(),
    ensures
        as_points(cells).contains(p[i]),
    decreases i,
{
    if i > 0 {
        lemma_path_in_cells(mask, w, h, diag, s, vis0, vis, cells, p, i - 1);
        let q = p[i - 1];
        let n = p[i];
        let k = choose|k: int| 0 <= k < as_points(cells).len() && as_points(cells)[k] == q;
        assert(cells[k].0 as int == q.0 && cells[k].1 as int == q.1);
        assert(closed(mask, vis, w, h, diag, q.0, q.1));
        assert(adjacent(diag, q.0, q.1, n.0, n.1));
        assert(set_at(mask, w, h, n.0, n.1));
        assert(set_at(vis, w, h, n.0, n.1));
        if vis0[cell(w, n.0, n.1)] {
            assert(p.take(i + 1)[0] == s);
            let pre = p.take(i + 1);
            assert forall|j: int| 0 <= j < pre.len() implies set_at(mask, w, h, (#[trigger] pre[j]).0, pre[j].1) by {
                assert(pre[j] == p[j]);
            }
            assert forall|j: int| 0 <= j < pre.len() - 1 implies adjacent(
                diag,
                (#[trigger] pre[j]).0,
                pre[j].1,
                pre[j + 1].0,
                pre[j + 1].1,
            ) by {
                assert(pre[j] == p[j]);
                assert(pre[j + 1] == p[j + 1]);
            }
            assert(is_path(mask, w, h, diag, pre));
            assert(connected(mask, w, h, diag, s, n));
            lemma_connected_symm(mask, w, h, diag, s, n);
            assert(set_at(vis0, w, h, n.0, n.1));
            assert(set_at(vis0, w, h, s.0, s.1));
            assert(false);
        }
    }
}

/// `(x2, y2)` comes before `(x, y)` in row-major order.
pub open spec fn earlier(x2: int, y2: int, x: int, y: int) -> bool {
    y2 < y || (y2 == y && x2 < x)
}

/// `(x, y)` is the first cell of its component in row-major order.
pub open spec fn is_leader(mask: Seq<bool>, w: int, h: int, diag: bool, x: int, y: int) -> bool {
    set_at(mask, w, h, x, y) && forall|x2: int, y2: int|
        in_grid(w, h, x2, y2) && earlier(x2, y2, x, y) ==> !#[trigger] connected(
            mask,
            w,
            h,
            diag,
            (x, y),
            (x2, y2),
        )
}

/// The leaders of row `y` left of column `x`, left to right.
pub open spec fn leaders_in_row(mask: Seq<bool>, w: int, h: int, diag: bool, y: int, x: int) -> Seq<
    (int, int),
>
    decreases x,
{
    if x <= 0 {
        Seq::empty()
    } else if is_leader(mask, w, h, diag, x - 1, y) {
        leaders_in_row(mask, w, h, diag, y, x - 1).push((x - 1, y))
    } else {
        leaders_in_row(mask, w, h, diag, y, x - 1)
    }
}

/// The leaders of the rows above row `y`, in row-major order.
pub open spec fn leaders_above(mask: Seq<bool>, w: int, h: int, diag: bool, y: int) -> Seq<(int, int)>
    decreases y,
{
    if y <= 0 {
        Seq::empty()
    } else {
        leaders_above(mask, w, h, diag, y - 1) + leaders_in_row(mask, w, h, diag, y - 1, w)
    }
}

/// The leaders of all components, in row-major order.
pub open spec fn leaders(mask: Seq<bool>, w: int, h: int, diag: bool) -> Seq<(int, int)> {
    leaders_above(mask, w, h, diag, h)
}

/// `cells` lists the component of `a`: each of its cells once, nothing else,
/// in the order a breadth-first search from `a` meets them.
pub open spec fn lists_component(
    mask: Seq<bool>,
    w: int,
    h: int,
    diag: bool,
    a: (int, int),
    cells: Seq<(i32, i32)>,
) -> bool {
    &&& forall|k: int|
        0 <= k < cells.len() ==> in_grid(w, h, (#[trigger] cells[k]).0 as int, cells[k].1 as int)
            && connected(mask, w, h, diag, a, (cells[k].0 as int, cells[k].1 as int))
    &&& forall|x: int, y: int|
        #[trigger] connected(mask, w, h, diag, a, (x, y)) ==> as_points(cells).contains((x, y))
    &&& forall|k1: int, k2: int|
        0 <= k1 < cells.len() && 0 <= k2 < cells.len() && k1 != k2 ==> #[trigger] cells[k1]
            != #[trigger] cells[k2]
    &&& cells == component_order(mask, w, h, diag, a)
}

/// The cells visited once every cell before `(x, y)` has been scanned: those
/// connected to a set cell that comes earlier.
spec fn scanned_before(mask: Seq<bool>, w: int, h: int, diag: bool, vis: Seq<bool>, x: int, y: int) -> bool {
    &&& vis.len() == mask.len()
    &&& forall|x3: int, y3: int|
        in_grid(w, h, x3, y3) ==> (#[trigger] vis[cell(w, x3, y3)] <==> exists|x2: int, y2: int|
            in_grid(w, h, x2, y2) && earlier(x2, y2, x, y) && #[trigger] connected(
                mask,
                w,
                h,
                diag,
                (x2, y2),
                (x3, y3),
            ))
}

proof fn lemma_scanned_whole(mask: Seq<bool>, w: int, h: int, diag: bool, vis: Seq<bool>, x: int, y: int)
    requires
        grid_ok(mask.len() as int, w, h),
        scanned_before(mask, w, h, diag, vis, x, y),
    ensures
        whole_components(mask, vis, w, h, diag),
{
    assert forall|a: (int, int), b: (int, int)|
        #[trigger] set_at(vis, w, h, a.0, a.1) && #[trigger] connected(mask, w, h, diag, a, b) implies set_at(
        vis,
        w,
        h,
        b.0,
        b.1,
    ) by {
        let (x2, y2) = choose|x2: int, y2: int|
            in_grid(w, h, x2, y2) && earlier(x2, y2, x, y) && #[trigger] connected(
                mask,
                w,
                h,
                diag,
                (x2, y2),
                (a.0, a.1),
            );
        lemma_connected_trans(mask, w, h, diag, (x2, y2), a, b);
        let p = choose|p: Seq<(int, int)>| #[trigger] is_path(mask, w, h, diag, p) && p[0] == a && p.last() == b;
        assert(set_at(mask, w, h, p.last().0, p.last().1));
        assert(connected(mask, w, h, diag, (x2, y2), (b.0, b.1)));
    }
}

/// The components of the cells set in `mask`, each listed once, in the
/// row-major order of their first cells.
pub fn components_in_order(mask: &[bool], grid_w: i32, grid_h: i32, diag: bool) -> (comps: Vec<
    Vec<(i32, i32)>,
>)
    requires
        grid_ok(mask@.len() as int, grid_w as int, grid_h as int),
    ensures
        comps@.len() == leaders(mask@, grid_w as int, grid_h as int, diag).len(),
        forall|k: int|
            0 <= k < comps@.len() ==> lists_component(
                mask@,
                grid_w as int,
                grid_h as int,
                diag,
                #[trigger] leaders(mask@, grid_w as int, grid_h as int, diag)[k],
                comps@[k]@,
            ),
{
    let w = grid_w;
    let h = grid_h;
    let ghost wi = w as int;
    let ghost hi = h as int;
    let ghost m = mask@;
    let mut visited: Vec<bool> = vec![false; mask.len()];
    let mut comps: Vec<Vec<(i32, i32)>> = Vec::new();
    proof {
        assert forall|x3: int, y3: int| in_grid(wi, hi, x3, y3) implies (#[trigger] visited@[cell(
            wi,
            x3,
            y3,
        )] <==> exists|x2: int, y2: int|
            in_grid(wi, hi, x2, y2) && earlier(x2, y2, 0, 0) && #[trigger] connected(
                m,
                wi,
                hi,
                diag,
                (x2, y2),
                (x3, y3),
            )) by {
            lemma_cell(wi, hi, x3, y3);
        }
    }
    let mut gy: i32 = 0;
    while gy < h
        invariant
            grid_ok(m.len() as int, wi, hi),
            m == mask@,
            wi == w,
            hi == h,
            0 <= gy <= h,
            scanned_before(m, wi, hi, diag, visited@, 0, gy as int),
            comps@.len() == leaders_above(m, wi, hi, diag, gy as int).len(),
            forall|k: int|
                0 <= k < comps@.len() ==> lists_component(
                    m,
                    wi,
                    hi,
                    diag,
                    #[trigger] leaders_above(m, wi, hi, diag, gy as int)[k],
                    comps@[k]@,
                ),
        decreases h - gy,
    {
        let ghost base = leaders_above(m, wi, hi, diag, gy as int);
        let mut gx: i32 = 0;
        while gx < w
            invariant
                grid_ok(m.len() as int, wi, hi),
                m == mask@,
                wi == w,
                hi == h,
                0 <= gy < h,
                0 <= gx <= w,
                base == leaders_above(m, wi, hi, diag, gy as int),
                scanned_before(m, wi, hi, diag, visited@, gx as int, gy as int),
                comps@.len() == base.len() + leaders_in_row(m, wi, hi, diag, gy as int, gx as int).len(),
                forall|k: int|
                    0 <= k < comps@.len() ==> lists_component(
                        m,
                        wi,
                        hi,
                        diag,
                        #[trigger] (base + leaders_in_row(m, wi, hi, diag, gy as int, gx as int))[k],
                        comps@[k]@,
                    ),
            decreases w - gx,
        {
            let i = idx(w, h, gx, gy);
            let ghost row = leaders_in_row(m, wi, hi, diag, gy as int, gx as int);
            let ghost vis_before = visited@;
            proof {
                lemma_cell(wi, hi, gx as int, gy as int);
            }
            if mask[i] && !visited[i] {
                proof {
                    lemma_scanned_whole(m, wi, hi, diag, visited@, gx as int, gy as int);
                    assert(is_leader(m, wi, hi, diag, gx as int, gy as int)) by {
                        assert forall|x2: int, y2: int|
                            in_grid(wi, hi, x2, y2) && earlier(x2, y2, gx as int, gy as int) implies !#[trigger] connected(
                            m,
                            wi,
                            hi,
                            diag,
                            (gx as int, gy as int),
                            (x2, y2),
                        ) by {
                            if connected(m, wi, hi, diag, (gx as int, gy as int), (x2, y2)) {
                                lemma_connected_symm(m, wi, hi, diag, (gx as int, gy as int), (x2, y2));
                            }
                        }
                    }
                }
                let cells = collect_component(mask, w, h, diag, &mut visited, gx, gy);
                comps.push(cells);
                proof {
                    assert(leaders_in_row(m, wi, hi, diag, gy as int, gx + 1) == row.push(
                        (gx as int, gy as int),
                    ));
                    assert((base + row.push((gx as int, gy as int))) =~= (base + row).push(
                        (gx as int, gy as int),
                    ));
                }
            } else {
                proof {
                    if mask[i as int] {
                        let (x2, y2) = choose|x2: int, y2: int|
                            in_grid(wi, hi, x2, y2) && earlier(x2, y2, gx as int, gy as int)
                                && #[trigger] connected(
                                m,
                                wi,
                                hi,
                                diag,
                                (x2, y2),
                                (gx as int, gy as int),
                            );
                        lemma_connected_symm(m, wi, hi, diag, (x2, y2), (gx as int, gy as int));
                    }
                    assert(!is_leader(m, wi, hi, diag, gx as int, gy as int));
                    assert(leaders_in_row(m, wi, hi, diag, gy as int, gx + 1) == row);
                }
            }
            proof {
                assert forall|x3: int, y3: int| in_grid(wi, hi, x3, y3) implies (
                #[trigger] visited@[cell(wi, x3, y3)] <==> exists|x2: int, y2: int|
                    in_grid(wi, hi, x2, y2) && earlier(x2, y2, gx + 1, gy as int) && #[trigger] connected(
                        m,
                        wi,
                        hi,
                        diag,
                        (x2, y2),
                        (x3, y3),
                    )) by {
                    lemma_cell(wi, hi, x3, y3);
                    if visited@[cell(wi, x3, y3)] && !vis_before[cell(wi, x3, y3)] {
                        assert(connected(m, wi, hi, diag, (gx as int, gy as int), (x3, y3)));
                    }
                    if exists|x2: int, y2: int|
                        in_grid(wi, hi, x2, y2) && earlier(x2, y2, gx + 1, gy as int) && #[trigger] connected(
                            m,
                            wi,
                            hi,
                            diag,
                            (x2, y2),
                            (x3, y3),
                        ) {
                        let (x2, y2) = choose|x2: int, y2: int|
                            in_grid(wi, hi, x2, y2) && earlier(x2, y2, gx + 1, gy as int)
                                && #[trigger] connected(m, wi, hi, diag, (x2, y2), (x3, y3));
                        if x2 == gx && y2 == gy {
                            if !vis_before[cell(wi, x3, y3)] && !(mask[i as int] && !vis_before[i as int]) {
                                if mask[i as int] {
                                    let (x4, y4) = choose|x4: int, y4: int|
                                        in_grid(wi, hi, x4, y4) && earlier(x4, y4, gx as int, gy as int)
                                            && #[trigger] connected(
                                            m,
                                            wi,
                                            hi,
                                            diag,
                                            (x4, y4),
                                            (gx as int, gy as int),
                                        );
                                    lemma_connected_trans(m, wi, hi, diag, (x4, y4), (gx as int, gy as int), (x3, y3));
                                } else {
                                    let p = choose|p: Seq<(int, int)>| #[trigger] is_path(m, wi, hi, diag, p) && p[0] == (x2, y2) && p.last() == (x3, y3);
                                    assert(set_at(m, wi, hi, p[0].0, p[0].1));
                                }
                            }
                        }
                    }
                }
            }
            gx = gx + 1;
        }
        proof {
            assert(leaders_above(m, wi, hi, diag, gy + 1) == base + leaders_in_row(m, wi, hi, diag, gy as int, wi));
            assert forall|x3: int, y3: int| in_grid(wi, hi, x3, y3) implies (#[trigger] visited@[cell(
                wi,
                x3,
                y3,
            )] <==> exists|x2: int, y2: int|
                in_grid(wi, hi, x2, y2) && earlier(x2, y2, 0, gy + 1) && #[trigger] connected(
                    m,
                    wi,
                    hi,
                    diag,
                    (x2, y2),
                    (x3, y3),
                )) by {
                if exists|x2: int, y2: int|
                    in_grid(wi, hi, x2, y2) && earlier(x2, y2, 0, gy + 1) && #[trigger] connected(
                        m,
                        wi,
                        hi,
                        diag,
                        (x2, y2),
                        (x3, y3),
                    ) {
                    let (x2, y2) = choose|x2: int, y2: int|
                        in_grid(wi, hi, x2, y2) && earlier(x2, y2, 0, gy + 1) && #[trigger] connected(
                            m,
                            wi,
                            hi,
                            diag,
                            (x2, y2),
                            (x3, y3),
                        );
                    assert(earlier(x2, y2, wi, gy as int));
                }
                if visited@[cell(wi, x3, y3)] {
                    let (x2, y2) = choose|x2: int, y2: int|
                        in_grid(wi, hi, x2, y2) && earlier(x2, y2, wi, gy as int) && #[trigger] connected(
                            m,
                            wi,
                            hi,
                            diag,
                            (x2, y2),
                            (x3, y3),
                        );
                    assert(earlier(x2, y2, 0, gy + 1));
                }
            }
        }
        gy = gy + 1;
    }
    comps
}

proof fn lemma_row_leaders(mask: Seq<bool>, w: int, h: int, diag: bool, y: int, x: int)
    ensures
        forall|k: int|
            0 <= k < leaders_in_row(mask, w, h, diag, y, x).len() ==> is_leader(
                mask,
                w,
                h,
                diag,
                (#[trigger] leaders_in_row(mask, w, h, diag, y, x)[k]).0,
                leaders_in_row(mask, w, h, diag, y, x)[k].1,
            ),
    decreases x,
{
    if x > 0 {
        lemma_row_leaders(mask, w, h, diag, y, x - 1);
        let prev = leaders_in_row(mask, w, h, diag, y, x - 1);
        let cur = leaders_in_row(mask, w, h, diag, y, x);
        assert forall|k: int| 0 <= k < cur.len() implies is_leader(
            mask,
            w,
            h,
            diag,
            (#[trigger] cur[k]).0,
            cur[k].1,
        ) by {
            if k < prev.len() {
                assert(cur[k] == prev[k]);
            }
        }
    }
}

proof fn lemma_above_leaders(mask: Seq<bool>, w: int, h: int, diag: bool, y: int)
    ensures
        forall|k: int|
            0 <= k < leaders_above(mask, w, h, diag, y).len() ==> is_leader(
                mask,
                w,
                h,
                diag,
                (#[trigger] leaders_above(mask, w, h, diag, y)[k]).0,
                leaders_above(mask, w, h, diag, y)[k].1,
            ),
    decreases y,
{
    if y > 0 {
        lemma_above_leaders(mask, w, h, diag, y - 1);
        lemma_row_leaders(mask, w, h, diag, y - 1, w);
        let a = leaders_above(mask, w, h, diag, y - 1);
        let b = leaders_in_row(mask, w, h, diag, y - 1, w);
        assert forall|k: int| 0 <= k < (a + b).len() implies is_leader(
            mask,
            w,
            h,
            diag,
            (#[trigger] (a + b)[k]).0,
            (a + b)[k].1,
        ) by {
            if k < a.len() {
                assert((a + b)[k] == a[k]);
            } else {
                assert((a + b)[k] == b[k - a.len()]);
            }
        }
    }
}

/// Every leader is the first cell of its component.
pub proof fn lemma_leaders_are_leaders(mask: Seq<bool>, w: int, h: int, diag: bool)
    ensures
        forall|k: int|
            0 <= k < leaders(mask, w, h, diag).len() ==> is_leader(
                mask,
                w,
                h,
                diag,
                (#[trigger] leaders(mask, w, h, diag)[k]).0,
                leaders(mask, w, h, diag)[k].1,
            ),
{
    lemma_above_leaders(mask, w, h, diag, h);
}

proof fn lemma_row_sorted(mask: Seq<bool>, w: int, h: int, diag: bool, y: int, x: int)
    ensures
        forall|i: int|
            0 <= i < leaders_in_row(mask, w, h, diag, y, x).len() ==> (#[trigger] leaders_in_row(
                mask,
                w,
                h,
                diag,
                y,
                x,
            )[i]).1 == y && leaders_in_row(mask, w, h, diag, y, x)[i].0 < x,
        forall|i: int, j: int|
            0 <= i < j < leaders_in_row(mask, w, h, diag, y, x).len() ==> (#[trigger] leaders_in_row(
                mask,
                w,
                h,
                diag,
                y,
                x,
            )[i]).0 < (#[trigger] leaders_in_row(mask, w, h, diag, y, x)[j]).0,
    decreases x,
{
    if x > 0 {
        lemma_row_sorted(mask, w, h, diag, y, x - 1);
        let prev = leaders_in_row(mask, w, h, diag, y, x - 1);
        let cur = leaders_in_row(mask, w, h, diag, y, x);
        assert forall|i: int| 0 <= i < cur.len() implies (#[trigger] cur[i]).1 == y && cur[i].0 < x by {
            if i < prev.len() {
                assert(cur[i] == prev[i]);
            }
        }
        assert forall|i: int, j: int| 0 <= i < j < cur.len() implies (#[trigger] cur[i]).0 < (
        #[trigger] cur[j]).0 by {
            if j < prev.len() {
                assert(cur[i] == prev[i] && cur[j] == prev[j]);
            } else {
                assert(cur[i] == prev[i]);
            }
        }
    }
}

proof fn lemma_above_sorted(mask: Seq<bool>, w: int, h: int, diag: bool, y: int)
    ensures
        forall|i: int|
            0 <= i < leaders_above(mask, w, h, diag, y).len() ==> (#[trigger] leaders_above(
                mask,
                w,
                h,
                diag,
                y,
            )[i]).1 < y,
        forall|i: int, j: int|
            0 <= i < j < leaders_above(mask, w, h, diag, y).len() ==> earlier(
                (#[trigger] leaders_above(mask, w, h, diag, y)[i]).0,
                leaders_above(mask, w, h, diag, y)[i].1,
                (#[trigger] leaders_above(mask, w, h, diag, y)[j]).0,
                leaders_above(mask, w, h, diag, y)[j].1,
            ),
    decreases y,
{
    if y > 0 {
        lemma_above_sorted(mask, w, h, diag, y - 1);
        lemma_row_sorted(mask, w, h, diag, y - 1, w);
        let a = leaders_above(mask, w, h, diag, y - 1);
        let b = leaders_in_row(mask, w, h, diag, y - 1, w);
        let c = a + b;
        assert forall|i: int| 0 <= i < c.len() implies (#[trigger] c[i]).1 < y by {
            if i < a.len() {
                assert(c[i] == a[i]);
            } else {
                assert(c[i] == b[i - a.len()]);
            }
        }
        assert forall|i: int, j: int| 0 <= i < j < c.len() implies earlier(
            (#[trigger] c[i]).0,
            c[i].1,
            (#[trigger] c[j]).0,
            c[j].1,
        ) by {
            if j < a.len() {
                assert(c[i] == a[i] && c[j] == a[j]);
            } else if i < a.len() {
                assert(c[i] == a[i] && c[j] == b[j - a.len()]);
            } else {
                assert(c[i] == b[i - a.len()] && c[j] == b[j - a.len()]);
            }
        }
    }
}

/// The leaders come in row-major order.
pub proof fn lemma_leaders_sorted(mask: Seq<bool>, w: int, h: int, diag: bool)
    ensures
        forall|i: int, j: int|
            0 <= i < j < leaders(mask, w, h, diag).len() ==> earlier(
                (#[trigger] leaders(mask, w, h, diag)[i]).0,
                leaders(mask, w, h, diag)[i].1,
                (#[trigger] leaders(mask, w, h, diag)[j]).0,
                leaders(mask, w, h, diag)[j].1,
            ),
{
    lemma_above_sorted(mask, w, h, diag, h);
}

proof fn lemma_row_count(mask: Seq<bool>, w: int, h: int, diag: bool, y: int, x: int)
    requires
        x >= 0,
    ensures
        leaders_in_row(mask, w, h, diag, y, x).len() <= x,
    decreases x,
{
    if x > 0 {
        lemma_row_count(mask, w, h, diag, y, x - 1);
    }
}

proof fn lemma_above_count(mask: Seq<bool>, w: int, h: int, diag: bool, y: int)
    requires
        y >= 0,
        w >= 0,
    ensures
        leaders_above(mask, w, h, diag, y).len() <= y * w,
    decreases y,
{
    if y > 0 {
        lemma_above_count(mask, w, h, diag, y - 1);
        lemma_row_count(mask, w, h, diag, y - 1, w);
        assert((y - 1) * w + w == y * w) by (nonlinear_arith);
    }
}

/// There are no more leaders than cells.
pub proof fn lemma_leaders_count(mask: Seq<bool>, w: int, h: int, diag: bool)
    requires
        w >= 0,
        h >= 0,
    ensures
        leaders(mask, w, h, diag).len() <= w * h,
{
    lemma_above_count(mask, w, h, diag, h);
    assert(h * w == w * h) by (nonlinear_arith);
}

} // verus!
