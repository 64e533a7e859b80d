//! The flood fill of the outside: the free cells that connect to the edge of
//! the grid through free cells.

use vstd::prelude::*;
use super::grid::{cell, grid_ok, idx, in_grid, lemma_cell, neighbors4, set_at};

verus! {

/// `(x, y)` lies on the edge of the grid.
pub open spec fn on_border(w: int, h: int, x: int, y: int) -> bool {
    x == 0 || y == 0 || x == w - 1 || y == h - 1
}

/// `(x, y)` is a free cell that a walk of at most `n` orthogonal steps over
/// free cells connects to a free cell on the edge.
pub open spec fn reach(free: Seq<bool>, w: int, h: int, n: nat, x: int, y: int) -> bool
    decreases n,
{
    set_at(free, w, h, x, y) && (on_border(w, h, x, y) || (n > 0 && (reach(
        free,
        w,
        h,
        (n - 1) as nat,
        x + 1,
        y,
    ) || reach(free, w, h, (n - 1) as nat, x - 1, y) || reach(free, w, h, (n - 1) as nat, x, y + 1)
        || reach(free, w, h, (n - 1) as nat, x, y - 1))))
}

/// `(x, y)` is outside: a free cell connected to the edge of the grid
/// through free cells, by orthogonal steps.
pub open spec fn outside_of(free: Seq<bool>, w: int, h: int, x: int, y: int) -> bool {
    exists|n: nat| reach(free, w, h, n, x, y)
}

/// Every free orthogonal neighbour of `(x, y)` is marked.
spec fn closed(out: Seq<bool>, free: Seq<bool>, w: int, h: int, x: int, y: int) -> bool {
    &&& set_at(free, w, h, x + 1, y) ==> set_at(out, w, h, x + 1, y)
    &&& set_at(free, w, h, x - 1, y) ==> set_at(out, w, h, x - 1, y)
    &&& set_at(free, w, h, x, y + 1) ==> set_at(out, w, h, x, y + 1)
    &&& set_at(free, w, h, x, y - 1) ==> set_at(out, w, h, x, y - 1)
}

spec fn in_stack(st: Seq<(i32, i32)>, x: int, y: int) -> bool {
    exists|j: int| 0 <= j < st.len() && #[trigger] st[j] == (x as i32, y as i32)
}

pub(crate) open spec fn count_false(s: Seq<bool>) -> nat
    decreases s.len(),
{
    if s.len() == 0 {
        0
    } else {
        count_false(s.drop_last()) + if s.last() {
            0nat
        } else {
            1nat
        }
    }
}

pub(crate) proof fn lemma_count_false_mark(s: Seq<bool>, i: int)
    requires
        0 <= i < s.len(),
        !s[i],
    ensures
        count_false(s.update(i, true)) + 1 == count_false(s),
    decreases s.len(),
{
    let u = s.update(i, true);
    if i == s.len() - 1 {
        assert(u.drop_last() =~= s.drop_last());
    } else {
        lemma_count_false_mark(s.drop_last(), i);
        assert(u.drop_last() =~= s.drop_last().update(i, true));
    }
}

/// What holds of the marks and the work stack at every step: marks are
/// outside cells, stacked cells are marked, and every marked cell has its
/// neighbours marked unless it waits on the stack or is being processed.
spec fn flood_inv(
    free: Seq<bool>,
    w: int,
    h: int,
    out: Seq<bool>,
    st: Seq<(i32, i32)>,
    pending: Option<(int, int)>,
) -> bool {
    &&& out.len() == free.len()
    &&& forall|x: int, y: int| #[trigger] set_at(out, w, h, x, y) ==> outside_of(free, w, h, x, y)
    &&& forall|j: int| 0 <= j < st.len() ==> set_at(out, w, h, (#[trigger] st[j]).0 as int, st[j].1 as int)
    &&& forall|x: int, y: int| #[trigger]
        set_at(out, w, h, x, y) ==> closed(out, free, w, h, x, y) || in_stack(st, x, y) || pending
            == Some((x, y))
}

/// The free cells of the top and bottom rows left of column `xlim` are
/// marked.
spec fn rows_marked(free: Seq<bool>, out: Seq<bool>, w: int, h: int, xlim: int) -> bool {
    forall|x2: int, y2: int|
        0 <= x2 < xlim && (y2 == 0 || y2 == h - 1) && #[trigger] set_at(free, w, h, x2, y2) ==> set_at(
            out,
            w,
            h,
            x2,
            y2,
        )
}

/// The free cells of the left and right columns above row `ylim` are
/// marked.
spec fn cols_marked(free: Seq<bool>, out: Seq<bool>, w: int, h: int, ylim: int) -> bool {
    forall|x2: int, y2: int|
        0 <= y2 < ylim && (x2 == 0 || x2 == w - 1) && #[trigger] set_at(free, w, h, x2, y2) ==> set_at(
            out,
            w,
            h,
            x2,
            y2,
        )
}

/// Mark `(x, y)` and stack it when it is free and not yet marked.
fn visit(
    free: &[bool],
    w: i32,
    h: i32,
    out: &mut Vec<bool>,
    stack: &mut Vec<(i32, i32)>,
    x: i32,
    y: i32,
    Ghost(pending): Ghost<Option<(int, int)>>,
)
    requires
        grid_ok(free@.len() as int, w as int, h as int),
        in_grid(w as int, h as int, x as int, y as int),
        flood_inv(free@, w as int, h as int, old(out)@, old(stack)@, pending),
        set_at(free@, w as int, h as int, x as int, y as int) ==> outside_of(
            free@,
            w as int,
            h as int,
            x as int,
            y as int,
        ),
    ensures
        flood_inv(free@, w as int, h as int, final(out)@, final(stack)@, pending),
        set_at(free@, w as int, h as int, x as int, y as int) ==> set_at(
            final(out)@,
            w as int,
            h as int,
            x as int,
            y as int,
        ),
        forall|x2: int, y2: int|
            set_at(old(out)@, w as int, h as int, x2, y2) ==> #[trigger] set_at(
                final(out)@,
                w as int,
                h as int,
                x2,
                y2,
            ),
        2 * count_false(final(out)@) + final(stack)@.len() + 1 <= 2 * count_false(old(out)@)
            + old(stack)@.len() || (final(out)@ == old(out)@ && final(stack)@ == old(stack)@),
{
    let i = idx(w, h, x, y);
    if free[i] && !out[i] {
        let ghost o = out@;
        let ghost st = stack@;
        proof {
            lemma_count_false_mark(o, i as int);
            lemma_cell(w as int, h as int, x as int, y as int);
        }
        out.set(i, true);
        stack.push((x, y));
        proof {
            let o2 = out@;
            let st2 = stack@;
            assert(o2 == o.update(i as int, true));
            assert forall|x2: int, y2: int| #[trigger] set_at(o2, w as int, h as int, x2, y2) implies outside_of(
                free@,
                w as int,
                h as int,
                x2,
                y2,
            ) by {
                if !(x2 == x && y2 == y) {
                    lemma_cell(w as int, h as int, x2, y2);
                    assert(cell(w as int, x2, y2) != i);
                    assert(set_at(o, w as int, h as int, x2, y2));
                }
            }
            assert forall|x2: int, y2: int|
                set_at(o, w as int, h as int, x2, y2) implies #[trigger] set_at(
                o2,
                w as int,
                h as int,
                x2,
                y2,
            ) by {
                lemma_cell(w as int, h as int, x2, y2);
            }
            assert forall|j: int| 0 <= j < st2.len() implies set_at(
                o2,
                w as int,
                h as int,
                (#[trigger] st2[j]).0 as int,
                st2[j].1 as int,
            ) by {
                if j < st.len() {
                    assert(st2[j] == st[j]);
                    assert(set_at(o, w as int, h as int, st[j].0 as int, st[j].1 as int));
                }
            }
            assert forall|x2: int, y2: int| #[trigger]
                set_at(o2, w as int, h as int, x2, y2) implies closed(
                o2,
                free@,
                w as int,
                h as int,
                x2,
                y2,
            ) || in_stack(st2, x2, y2) || pending == Some((x2, y2)) by {
                if x2 == x && y2 == y {
                    assert(st2[st.len() as int] == (x2 as i32, y2 as i32));
                } else {
                    lemma_cell(w as int, h as int, x2, y2);
                    assert(cell(w as int, x2, y2) != i);
                    assert(set_at(o, w as int, h as int, x2, y2));
                    if in_stack(st, x2, y2) {
                        let j = choose|j: int|
                            0 <= j < st.len() && #[trigger] st[j] == (x2 as i32, y2 as i32);
                        assert(st2[j] == st[j]);
                    }
                    if closed(o, free@, w as int, h as int, x2, y2) {
                        assert(set_at(free@, w as int, h as int, x2 + 1, y2) ==> set_at(
                            o,
                            w as int,
                            h as int,
                            x2 + 1,
                            y2,
                        ));
                        assert(set_at(free@, w as int, h as int, x2 - 1, y2) ==> set_at(
                            o,
                            w as int,
                            h as int,
                            x2 - 1,
                            y2,
                        ));
                        assert(set_at(free@, w as int, h as int, x2, y2 + 1) ==> set_at(
                            o,
                            w as int,
                            h as int,
                            x2,
                            y2 + 1,
                        ));
                        assert(set_at(free@, w as int, h as int, x2, y2 - 1) ==> set_at(
                            o,
                            w as int,
                            h as int,
                            x2,
                            y2 - 1,
                        ));
                    }
                }
            }
        }
    }
}

/// Mark the free cells connected to the edge of the grid.
///
/// Returns one flag per cell: set exactly on the free cells that a walk of
/// orthogonal steps over free cells connects to a free cell on the edge.
pub fn flood_outside(sealed_free: &[bool], grid_w: i32, grid_h: i32) -> (outside: Vec<bool>)
    requires
        grid_ok(sealed_free@.len() as int, grid_w as int, grid_h as int),
    ensures
        outside@.len() == sealed_free@.len(),
        forall|x: int, y: int|
            in_grid(grid_w as int, grid_h as int, x, y) ==> (#[trigger] outside@[cell(
                grid_w as int,
                x,
                y,
            )] <==> outside_of(sealed_free@, grid_w as int, grid_h as int, x, y)),
{
    let free = sealed_free;
    let w = grid_w;
    let h = grid_h;
    let ghost fr = free@;
    let ghost wi = w as int;
    let ghost hi = h as int;
    let mut out: Vec<bool> = vec![false; free.len()];
    let mut stack: Vec<(i32, i32)> = Vec::new();
    proof {
        assert forall|x: int, y: int| #[trigger] set_at(out@, wi, hi, x, y) implies false by {
            lemma_cell(wi, hi, x, y);
        }
    }
    let mut x: i32 = 0;
    while x < w
        invariant
            grid_ok(fr.len() as int, wi, hi),
            fr == free@,
            wi == w,
            hi == h,
            0 <= x <= w,
            flood_inv(fr, wi, hi, out@, stack@, None),
            rows_marked(fr, out@, wi, hi, x as int),
        decreases w - x,
    {
        proof {
            if set_at(fr, wi, hi, x as int, 0) {
                assert(reach(fr, wi, hi, 0, x as int, 0));
            }
            if set_at(fr, wi, hi, x as int, hi - 1) {
                assert(reach(fr, wi, hi, 0, x as int, hi - 1));
            }
        }
        visit(free, w, h, &mut out, &mut stack, x, 0, Ghost(None));
        visit(free, w, h, &mut out, &mut stack, x, h - 1, Ghost(None));
        x = x + 1;
    }
    let mut y: i32 = 0;
    while y < h
        invariant
            grid_ok(fr.len() as int, wi, hi),
            fr == free@,
            wi == w,
            hi == h,
            0 <= y <= h,
            flood_inv(fr, wi, hi, out@, stack@, None),
            rows_marked(fr, out@, wi, hi, wi),
            cols_marked(fr, out@, wi, hi, y as int),
        decreases h - y,
    {
        proof {
            if set_at(fr, wi, hi, 0, y as int) {
                assert(reach(fr, wi, hi, 0, 0, y as int));
            }
            if set_at(fr, wi, hi, wi - 1, y as int) {
                assert(reach(fr, wi, hi, 0, wi - 1, y as int));
            }
        }
        visit(free, w, h, &mut out, &mut stack, 0, y, Ghost(None));
        visit(free, w, h, &mut out, &mut stack, w - 1, y, Ghost(None));
        y = y + 1;
    }
    while stack.len() > 0
        invariant
            grid_ok(fr.len() as int, wi, hi),
            fr == free@,
            wi == w,
            hi == h,
            flood_inv(fr, wi, hi, out@, stack@, None),
            rows_marked(fr, out@, wi, hi, wi),
            cols_marked(fr, out@, wi, hi, hi),
        decreases 2 * count_false(out@) + stack@.len(),
    {
        let last = stack.len() - 1;
        let (cx, cy) = stack[last];
        let ghost st0 = stack@;
        let ghost c = (cx as int, cy as int);
        stack.pop();
        proof {
            let st1 = stack@;
            assert(st1 =~= st0.drop_last());
            assert(set_at(out@, wi, hi, cx as int, cy as int));
            assert forall|x2: int, y2: int| #[trigger]
                set_at(out@, wi, hi, x2, y2) implies closed(out@, fr, wi, hi, x2, y2) || in_stack(
                st1,
                x2,
                y2,
            ) || Some(c) == Some((x2, y2)) by {
                if !closed(out@, fr, wi, hi, x2, y2) && in_stack(st0, x2, y2) {
                    let j = choose|j: int|
                        0 <= j < st0.len() && #[trigger] st0[j] == (x2 as i32, y2 as i32);
                    if j < st1.len() {
                        assert(st1[j] == st0[j]);
                    } else {
                        assert(st0[j] == (cx, cy));
                    }
                }
            }
            assert forall|j: int| 0 <= j < st1.len() implies set_at(
                out@,
                wi,
                hi,
                (#[trigger] st1[j]).0 as int,
                st1[j].1 as int,
            ) by {
                assert(st1[j] == st0[j]);
            }
        }
        let ghost measure0 = 2 * count_false(out@) + stack@.len();
        let nbs = neighbors4(cx, cy);
        let mut k: usize = 0;
        while k < 4
            invariant
                grid_ok(fr.len() as int, wi, hi),
                fr == free@,
                wi == w,
                hi == h,
                0 <= k <= 4,
                in_grid(wi, hi, cx as int, cy as int),
                set_at(out@, wi, hi, cx as int, cy as int),
                nbs@ == seq![
                    ((cx + 1) as i32, cy),
                    ((cx - 1) as i32, cy),
                    (cx, (cy + 1) as i32),
                    (cx, (cy - 1) as i32),
                ],
                flood_inv(fr, wi, hi, out@, stack@, Some(c)),
                c == (cx as int, cy as int),
                forall|k2: int|
                    0 <= k2 < k ==> (set_at(fr, wi, hi, nbs@[k2].0 as int, nbs@[k2].1 as int)
                        ==> set_at(out@, wi, hi, nbs@[k2].0 as int, nbs@[k2].1 as int)),
                rows_marked(fr, out@, wi, hi, wi),
                cols_marked(fr, out@, wi, hi, hi),
                2 * count_false(out@) + stack@.len() <= measure0,
            decreases 4 - k,
        {
            let (nx, ny) = nbs[k];
            if nx >= 0 && ny >= 0 && nx < w && ny < h {
                proof {
                    if set_at(fr, wi, hi, nx as int, ny as int) {
                        let n = choose|n: nat| reach(fr, wi, hi, n, cx as int, cy as int);
                        assert(reach(fr, wi, hi, n + 1, nx as int, ny as int));
                    }
                }
                visit(free, w, h, &mut out, &mut stack, nx, ny, Ghost(Some(c)));
            }
            k = k + 1;
        }
        proof {
            assert(nbs@[0] == ((cx + 1) as i32, cy));
            assert(nbs@[1] == ((cx - 1) as i32, cy));
            assert(nbs@[2] == (cx, (cy + 1) as i32));
            assert(nbs@[3] == (cx, (cy - 1) as i32));
            assert(closed(out@, fr, wi, hi, cx as int, cy as int));
        }
    }
    proof {
        lemma_flood_complete(fr, wi, hi, out@);
    }
    out
}

proof fn lemma_flood_complete(free: Seq<bool>, w: int, h: int, out: Seq<bool>)
    requires
        grid_ok(free.len() as int, w, h),
        flood_inv(free, w, h, out, Seq::empty(), None),
        rows_marked(free, out, w, h, w),
        cols_marked(free, out, w, h, h),
    ensures
        forall|x: int, y: int|
            in_grid(w, h, x, y) ==> (#[trigger] out[cell(w, x, y)] <==> outside_of(
                free,
                w,
                h,
                x,
                y,
            )),
{
    assert forall|x: int, y: int| in_grid(w, h, x, y) implies (#[trigger] out[cell(w, x, y)]
        <==> outside_of(free, w, h, x, y)) by {
        if outside_of(free, w, h, x, y) {
            let n = choose|n: nat| reach(free, w, h, n, x, y);
            lemma_reach_marked(free, w, h, out, n, x, y);
        }
        if out[cell(w, x, y)] {
            assert(set_at(out, w, h, x, y));
        }
    }
}

proof fn lemma_reach_marked(free: Seq<bool>, w: int, h: int, out: Seq<bool>, n: nat, x: int, y: int)
    requires
        grid_ok(free.len() as int, w, h),
        flood_inv(free, w, h, out, Seq::empty(), None),
        rows_marked(free, out, w, h, w),
        cols_marked(free, out, w, h, h),
        reach(free, w, h, n, x, y),
    ensures
        set_at(out, w, h, x, y),
    decreases n,
{
    if on_border(w, h, x, y) {
        assert(set_at(free, w, h, x, y));
    } else {
        let m = (n - 1) as nat;
        if reach(free, w, h, m, x + 1, y) {
            lemma_reach_marked(free, w, h, out, m, x + 1, y);
            assert(closed(out, free, w, h, x + 1, y));
        } else if reach(free, w, h, m, x - 1, y) {
            lemma_reach_marked(free, w, h, out, m, x - 1, y);
            assert(closed(out, free, w, h, x - 1, y));
        } else if reach(free, w, h, m, x, y + 1) {
            lemma_reach_marked(free, w, h, out, m, x, y + 1);
            assert(closed(out, free, w, h, x, y + 1));
        } else {
            lemma_reach_marked(free, w, h, out, m, x, y - 1);
            assert(closed(out, free, w, h, x, y - 1));
        }
    }
}

} // verus!
