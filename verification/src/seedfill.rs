//! Binary seedfill (morphological reconstruction): the union of the mask's 4- or 8-connected
//! components that contain a seed pixel, computed on the seed's grid with
//! the mask clipped to its own extent.
use vstd::prelude::*;
use crate::grid::{idx, lemma_idx_bounds, lemma_idx_split};

verus! {

/// Pixel `(x, y)` lies in a `w × h` grid.
pub open spec fn in_grid(x: int, y: int, w: int, h: int) -> bool {
    0 <= x < w && 0 <= y < h
}

/// `(qx, qy)` is a neighbour of `(x, y)`: a different pixel at most one step
/// away in each direction, and not diagonal under 4-connectivity.
pub open spec fn adjacent(conn: int, x: int, y: int, qx: int, qy: int) -> bool {
    &&& !(qx == x && qy == y)
    &&& x - 1 <= qx <= x + 1
    &&& y - 1 <= qy <= y + 1
    &&& (conn == 4 ==> qx == x || qy == y)
}

/// A pixel the fill may enter: inside the mask's own grid and ON there.
pub open spec fn fillable(mask: Seq<u8>, mw: int, mh: int, x: int, y: int) -> bool {
    in_grid(x, y, mw, mh) && mask[idx(x, y, mw)] == 0
}

/// Pixel `(x, y)` is ON in a `w`-wide output.
pub open spec fn filled(out: Seq<u8>, w: int, x: int, y: int) -> bool {
    out[idx(x, y, w)] == 0
}

/// The fillable neighbours (inside the `sw × sh` grid) of `(x, y)` are all
/// filled.
pub open spec fn closed_at(out: Seq<u8>, sw: int, sh: int, mask: Seq<u8>, mw: int, mh: int, conn: int, x: int, y: int) -> bool {
    forall|qx: int, qy: int|
        in_grid(qx, qy, sw, sh) && #[trigger] adjacent(conn, x, y, qx, qy) && fillable(mask, mw, mh, qx, qy)
            ==> filled(out, sw, qx, qy)
}

/// A pixel set closed under stepping to fillable neighbours in the grid.
pub open spec fn closed_set(s: Set<(int, int)>, sw: int, sh: int, mask: Seq<u8>, mw: int, mh: int, conn: int) -> bool {
    forall|x: int, y: int, qx: int, qy: int|
        #[trigger] s.contains((x, y)) && in_grid(qx, qy, sw, sh) && #[trigger] adjacent(conn, x, y, qx, qy)
            && fillable(mask, mw, mh, qx, qy) ==> s.contains((qx, qy))
}

/// A pixel set containing every seed pixel that is fillable.
pub open spec fn has_seeds(s: Set<(int, int)>, seed: Seq<u8>, sw: int, sh: int, mask: Seq<u8>, mw: int, mh: int) -> bool {
    forall|x: int, y: int|
        in_grid(x, y, sw, sh) && #[trigger] seed[idx(x, y, sw)] == 0 && fillable(mask, mw, mh, x, y)
            ==> s.contains((x, y))
}

/// Every filled pixel of `out` belongs to `s`.
pub open spec fn filled_within(out: Seq<u8>, sw: int, sh: int, s: Set<(int, int)>) -> bool {
    forall|x: int, y: int| in_grid(x, y, sw, sh) && #[trigger] filled(out, sw, x, y) ==> s.contains((x, y))
}

/// The fill result is exactly the least fillable set containing the seeds
/// and closed under fillable neighbours.
pub open spec fn is_reconstruction(out: Seq<u8>, seed: Seq<u8>, sw: int, sh: int, mask: Seq<u8>, mw: int, mh: int, conn: int) -> bool {
    &&& out.len() == sw * sh
    &&& forall|i: int| 0 <= i < out.len() ==> out[i] == 0 || out[i] == 255
    &&& forall|x: int, y: int| in_grid(x, y, sw, sh) && #[trigger] filled(out, sw, x, y) ==> fillable(mask, mw, mh, x, y)
    &&& forall|x: int, y: int|
        in_grid(x, y, sw, sh) && #[trigger] seed[idx(x, y, sw)] == 0 && fillable(mask, mw, mh, x, y)
            ==> filled(out, sw, x, y)
    &&& forall|x: int, y: int| in_grid(x, y, sw, sh) && #[trigger] filled(out, sw, x, y) ==> closed_at(out, sw, sh, mask, mw, mh, conn, x, y)
    &&& forall|s: Set<(int, int)>|
        closed_set(s, sw, sh, mask, mw, mh, conn) && has_seeds(s, seed, sw, sh, mask, mw, mh)
            ==> #[trigger] filled_within(out, sw, sh, s)
}

/// Number of non-zero bytes.
pub open spec fn count_nonzero(s: Seq<u8>) -> nat
    decreases s.len(),
{
    if s.len() == 0 {
        0
    } else {
        count_nonzero(s.drop_last()) + if s.last() != 0 { 1nat } else { 0nat }
    }
}

/// Clearing a non-zero byte lowers the non-zero count by one.
pub proof fn lemma_count_nonzero_clear(s: Seq<u8>, i: int)
    requires
        0 <= i < s.len(),
        s[i] != 0,
    ensures
        count_nonzero(s.update(i, 0)) + 1 == count_nonzero(s),
    decreases s.len(),
{
    if i < s.len() - 1 {
        lemma_count_nonzero_clear(s.drop_last(), i);
        assert(s.update(i, 0).drop_last() =~= s.drop_last().update(i, 0));
    } else {
        assert(s.update(i, 0).drop_last() =~= s.drop_last());
    }
}

/// Fill state shared by every loop of [`seedfill_binary`].
pub open spec fn fill_inv(out: Seq<u8>, stack: Seq<(usize, usize)>, seed: Seq<u8>, sw: int, sh: int, mask: Seq<u8>, mw: int, mh: int, conn: int) -> bool {
    &&& out.len() == sw * sh
    &&& forall|i: int| 0 <= i < out.len() ==> out[i] == 0 || out[i] == 255
    &&& forall|x: int, y: int| in_grid(x, y, sw, sh) && #[trigger] filled(out, sw, x, y) ==> fillable(mask, mw, mh, x, y)
    &&& forall|k: int|
        0 <= k < stack.len() ==> in_grid(#[trigger] stack[k].0 as int, stack[k].1 as int, sw, sh) && filled(
            out,
            sw,
            stack[k].0 as int,
            stack[k].1 as int,
        )
    &&& forall|s: Set<(int, int)>|
        closed_set(s, sw, sh, mask, mw, mh, conn) && has_seeds(s, seed, sw, sh, mask, mw, mh)
            ==> #[trigger] filled_within(out, sw, sh, s)
}

/// Every filled pixel other than `(px, py)` is on the stack or closed.
pub open spec fn pending_inv(out: Seq<u8>, stack: Seq<(usize, usize)>, sw: int, sh: int, mask: Seq<u8>, mw: int, mh: int, conn: int, px: int, py: int) -> bool {
    forall|x: int, y: int|
        in_grid(x, y, sw, sh) && #[trigger] filled(out, sw, x, y) && !(x == px && y == py) ==> stack.contains((x as usize, y as usize))
            || closed_at(out, sw, sh, mask, mw, mh, conn, x, y)
}

/// Every closed pixel set that holds the seeds contains `(x, y)`.
pub open spec fn forced(seed: Seq<u8>, sw: int, sh: int, mask: Seq<u8>, mw: int, mh: int, conn: int, x: int, y: int) -> bool {
    forall|s: Set<(int, int)>|
        closed_set(s, sw, sh, mask, mw, mh, conn) && has_seeds(s, seed, sw, sh, mask, mw, mh) ==> #[trigger] s.contains((x, y))
}

/// Filling a forced, fillable pixel and pushing it onto the stack keeps the
/// fill state and the pending bookkeeping.
proof fn lemma_fill_keeps_inv(
    o1: Seq<u8>,
    s1: Seq<(usize, usize)>,
    seed: Seq<u8>,
    sw: int,
    sh: int,
    mask: Seq<u8>,
    mw: int,
    mh: int,
    conn: int,
    px: int,
    py: int,
    nx: int,
    ny: int,
)
    requires
        fill_inv(o1, s1, seed, sw, sh, mask, mw, mh, conn),
        pending_inv(o1, s1, sw, sh, mask, mw, mh, conn, px, py),
        in_grid(nx, ny, sw, sh),
        fillable(mask, mw, mh, nx, ny),
        forced(seed, sw, sh, mask, mw, mh, conn, nx, ny),
        nx <= usize::MAX,
        ny <= usize::MAX,
    ensures
        ({
            let o2 = o1.update(idx(nx, ny, sw), 0);
            let s2 = s1.push((nx as usize, ny as usize));
            &&& fill_inv(o2, s2, seed, sw, sh, mask, mw, mh, conn)
            &&& pending_inv(o2, s2, sw, sh, mask, mw, mh, conn, px, py)
            &&& filled(o2, sw, nx, ny)
            &&& forall|x: int, y: int| in_grid(x, y, sw, sh) && #[trigger] filled(o1, sw, x, y) ==> filled(o2, sw, x, y)
        }),
{
    let o2 = o1.update(idx(nx, ny, sw), 0);
    let s2 = s1.push((nx as usize, ny as usize));
    lemma_idx_bounds(nx, ny, sw, sh);
    assert forall|x: int, y: int| in_grid(x, y, sw, sh) && #[trigger] filled(o1, sw, x, y) implies filled(o2, sw, x, y) by {
        lemma_idx_bounds(x, y, sw, sh);
    }
    assert forall|i: int| 0 <= i < o2.len() implies o2[i] == 0 || o2[i] == 255 by {}
    assert forall|x: int, y: int| in_grid(x, y, sw, sh) && #[trigger] filled(o2, sw, x, y) implies fillable(mask, mw, mh, x, y) by {
        lemma_idx_bounds(x, y, sw, sh);
        if !(x == nx && y == ny) {
            lemma_pixel_distinct(x, y, nx, ny, sw, sh);
            assert(filled(o1, sw, x, y));
        }
    }
    assert forall|k: int| 0 <= k < s2.len() implies in_grid(#[trigger] s2[k].0 as int, s2[k].1 as int, sw, sh)
        && filled(o2, sw, s2[k].0 as int, s2[k].1 as int) by {
        if k < s1.len() {
            assert(s2[k] == s1[k]);
            assert(in_grid(s1[k].0 as int, s1[k].1 as int, sw, sh));
            lemma_idx_bounds(s1[k].0 as int, s1[k].1 as int, sw, sh);
        }
    }
    assert forall|s: Set<(int, int)>|
        closed_set(s, sw, sh, mask, mw, mh, conn) && has_seeds(s, seed, sw, sh, mask, mw, mh)
            implies #[trigger] filled_within(o2, sw, sh, s) by {
        assert(filled_within(o1, sw, sh, s));
        assert(s.contains((nx, ny)));
        assert forall|x: int, y: int| in_grid(x, y, sw, sh) && #[trigger] filled(o2, sw, x, y) implies s.contains((x, y)) by {
            if !(x == nx && y == ny) {
                lemma_idx_bounds(x, y, sw, sh);
                lemma_pixel_distinct(x, y, nx, ny, sw, sh);
                assert(filled(o1, sw, x, y));
            }
        }
    }
    assert forall|x: int, y: int|
        in_grid(x, y, sw, sh) && #[trigger] filled(o2, sw, x, y) && !(x == px && y == py)
            implies s2.contains((x as usize, y as usize)) || closed_at(o2, sw, sh, mask, mw, mh, conn, x, y) by {
        lemma_idx_bounds(x, y, sw, sh);
        if x == nx && y == ny {
            assert(s2[s2.len() - 1] == (nx as usize, ny as usize));
        } else {
            lemma_pixel_distinct(x, y, nx, ny, sw, sh);
            assert(filled(o1, sw, x, y));
            if s1.contains((x as usize, y as usize)) {
                let k = choose|k: int| 0 <= k < s1.len() && s1[k] == (x as usize, y as usize);
                assert(s2[k] == s1[k]);
            } else {
                assert(closed_at(o1, sw, sh, mask, mw, mh, conn, x, y));
                assert forall|qx: int, qy: int|
                    in_grid(qx, qy, sw, sh) && #[trigger] adjacent(conn, x, y, qx, qy) && fillable(mask, mw, mh, qx, qy)
                        implies filled(o2, sw, qx, qy) by {
                    lemma_idx_bounds(qx, qy, sw, sh);
                    assert(filled(o1, sw, qx, qy));
                }
            }
        }
    }
}

/// Distinct pixels of a grid have distinct flat indices.
pub proof fn lemma_pixel_distinct(x: int, y: int, qx: int, qy: int, w: int, h: int)
    requires
        in_grid(x, y, w, h),
        in_grid(qx, qy, w, h),
        !(x == qx && y == qy),
    ensures
        idx(x, y, w) != idx(qx, qy, w),
{
    crate::grid::lemma_idx_decompose(x, y, w);
    crate::grid::lemma_idx_decompose(qx, qy, w);
}

/// Is `(x, y)` inside the mask's own grid and ON there?
fn mask_on(mask: &[u8], mw: usize, mh: usize, x: usize, y: usize) -> (b: bool)
    requires
        mask@.len() == mw * mh,
    ensures
        b == fillable(mask@, mw as int, mh as int, x as int, y as int),
{
    let len = mask.len();
    if x < mw && y < mh {
        proof {
            lemma_idx_bounds(x as int, y as int, mw as int, mh as int);
        }
        mask[y * mw + x] == 0
    } else {
        false
    }
}

/// Binary seedfill: returns a buffer of the seed's
/// dimensions holding exactly the least set of pixels that contains every
/// seed pixel lying on the mask and is closed under stepping (4- or
/// 8-connected) to a neighbour lying on the mask; the mask is read within
/// its own `mw × mh` extent only. `None` when `connectivity ∉ {4, 8}`.
pub fn seedfill_binary(
    seed: &[u8],
    sw: usize,
    sh: usize,
    mask: &[u8],
    mw: usize,
    mh: usize,
    connectivity: u32,
) -> (r: Option<Vec<u8>>)
    requires
        seed@.len() == sw * sh,
        mask@.len() == mw * mh,
    ensures
        r is None <==> !(connectivity == 4 || connectivity == 8),
        r matches Some(out) ==> is_reconstruction(out@, seed@, sw as int, sh as int, mask@, mw as int, mh as int, connectivity as int),
{
    if connectivity != 4 && connectivity != 8 {
        return None;
    }
    let ghost conn = connectivity as int;
    let ghost sq = seed@;
    let ghost mq = mask@;
    let n = seed.len();
    let mut out: Vec<u8> = Vec::with_capacity(n);
    let mut i: usize = 0;
    while i < n
        invariant
            n == sw * sh,
            i <= n,
            out@.len() == i,
            forall|k: int| 0 <= k < i ==> out@[k] == 255,
        decreases n - i,
    {
        out.push(255);
        i += 1;
    }
    let mut stack: Vec<(usize, usize)> = Vec::new();
    proof {
        assert forall|x: int, y: int| in_grid(x, y, sw as int, sh as int) implies !#[trigger] filled(out@, sw as int, x, y) by {
            lemma_idx_bounds(x, y, sw as int, sh as int);
        }
        assert forall|s: Set<(int, int)>|
            closed_set(s, sw as int, sh as int, mq, mw as int, mh as int, conn) && has_seeds(s, sq, sw as int, sh as int, mq, mw as int, mh as int)
                implies #[trigger] filled_within(out@, sw as int, sh as int, s) by {}
    }
    let mut y: usize = 0;
    while y < sh
        invariant
            seed@ == sq,
            mask@ == mq,
            conn == connectivity as int,
            conn == 4 || conn == 8,
            sq.len() == sw * sh,
            mq.len() == mw * mh,
            n == sw * sh,
            y <= sh,
            stack@.len() == 0,
            fill_inv(out@, stack@, sq, sw as int, sh as int, mq, mw as int, mh as int, conn),
            pending_inv(out@, stack@, sw as int, sh as int, mq, mw as int, mh as int, conn, -1, -1),
            forall|x2: int, y2: int|
                in_grid(x2, y2, sw as int, sh as int) && y2 < y && #[trigger] sq[idx(x2, y2, sw as int)] == 0 && fillable(mq, mw as int, mh as int, x2, y2)
                    ==> filled(out@, sw as int, x2, y2),
        decreases sh - y,
    {
        let mut x: usize = 0;
        while x < sw
            invariant
                seed@ == sq,
                mask@ == mq,
                conn == connectivity as int,
                conn == 4 || conn == 8,
                sq.len() == sw * sh,
                mq.len() == mw * mh,
                n == sw * sh,
                y < sh,
                x <= sw,
                stack@.len() == 0,
                fill_inv(out@, stack@, sq, sw as int, sh as int, mq, mw as int, mh as int, conn),
                pending_inv(out@, stack@, sw as int, sh as int, mq, mw as int, mh as int, conn, -1, -1),
                forall|x2: int, y2: int|
                    in_grid(x2, y2, sw as int, sh as int) && (y2 < y || (y2 == y && x2 < x)) && #[trigger] sq[idx(x2, y2, sw as int)] == 0
                        && fillable(mq, mw as int, mh as int, x2, y2) ==> filled(out@, sw as int, x2, y2),
            decreases sw - x,
        {
            proof {
                lemma_idx_bounds(x as int, y as int, sw as int, sh as int);
            }
            let here = y * sw + x;
            let on_mask = mask_on(mask, mw, mh, x, y);
            let ghost o_pre = out@;
            if seed[here] == 0 && on_mask && out[here] != 0 {
                proof {
                    assert(sq[idx(x as int, y as int, sw as int)] == 0);
                    lemma_fill_keeps_inv(out@, stack@, sq, sw as int, sh as int, mq, mw as int, mh as int, conn, -1, -1, x as int, y as int);
                }
                out.set(here, 0);
                stack.push((x, y));
                drain_stack(&mut out, &mut stack, sw, sh, mask, mw, mh, connectivity, Ghost(sq));
            }
            proof {
                assert forall|x2: int, y2: int|
                    in_grid(x2, y2, sw as int, sh as int) && (y2 < y || (y2 == y && x2 < x + 1)) && #[trigger] sq[idx(x2, y2, sw as int)] == 0
                        && fillable(mq, mw as int, mh as int, x2, y2) implies filled(out@, sw as int, x2, y2) by {
                    if !(y2 == y && x2 == x) {
                        assert(filled(o_pre, sw as int, x2, y2));
                    }
                }
            }
            x += 1;
        }
        y += 1;
    }
    proof {
        assert forall|x: int, y: int| in_grid(x, y, sw as int, sh as int) && #[trigger] filled(out@, sw as int, x, y)
            implies closed_at(out@, sw as int, sh as int, mq, mw as int, mh as int, conn, x, y) by {
            assert(!stack@.contains((x as usize, y as usize)));
        }
    }
    Some(out)
}

/// Pop and expand pixels until the stack is empty: every popped pixel gets
/// all its fillable, not yet filled neighbours filled and pushed.
fn drain_stack(
    out: &mut Vec<u8>,
    stack: &mut Vec<(usize, usize)>,
    sw: usize,
    sh: usize,
    mask: &[u8],
    mw: usize,
    mh: usize,
    connectivity: u32,
    Ghost(sq): Ghost<Seq<u8>>,
)
    requires
        connectivity == 4 || connectivity == 8,
        sq.len() == sw * sh,
        sw * sh <= usize::MAX,
        mask@.len() == mw * mh,
        fill_inv(old(out)@, old(stack)@, sq, sw as int, sh as int, mask@, mw as int, mh as int, connectivity as int),
        pending_inv(old(out)@, old(stack)@, sw as int, sh as int, mask@, mw as int, mh as int, connectivity as int, -1, -1),
    ensures
        final(stack)@.len() == 0,
        fill_inv(final(out)@, final(stack)@, sq, sw as int, sh as int, mask@, mw as int, mh as int, connectivity as int),
        pending_inv(final(out)@, final(stack)@, sw as int, sh as int, mask@, mw as int, mh as int, connectivity as int, -1, -1),
        forall|x: int, y: int| in_grid(x, y, sw as int, sh as int) && #[trigger] filled(old(out)@, sw as int, x, y) ==> filled(final(out)@, sw as int, x, y),
{
    let ghost conn = connectivity as int;
    let ghost mq = mask@;
    let ghost o0 = out@;
    while stack.len() > 0
        invariant
            conn == connectivity as int,
            conn == 4 || conn == 8,
            mask@ == mq,
            sq.len() == sw * sh,
            sw * sh <= usize::MAX,
            mq.len() == mw * mh,
            fill_inv(out@, stack@, sq, sw as int, sh as int, mq, mw as int, mh as int, conn),
            pending_inv(out@, stack@, sw as int, sh as int, mq, mw as int, mh as int, conn, -1, -1),
            forall|x: int, y: int| in_grid(x, y, sw as int, sh as int) && #[trigger] filled(o0, sw as int, x, y) ==> filled(out@, sw as int, x, y),
        decreases count_nonzero(out@), stack@.len(),
    {
        let ghost out_before = out@;
        let ghost stack_before = stack@;
        let (cx, cy) = stack.pop().unwrap();
        proof {
            assert(stack_before[stack_before.len() - 1] == (cx, cy));
            assert(in_grid(cx as int, cy as int, sw as int, sh as int));
            assert forall|k: int| 0 <= k < stack@.len() implies stack@[k] == stack_before[k] by {}
            assert forall|x: int, y: int|
                in_grid(x, y, sw as int, sh as int) && #[trigger] filled(out@, sw as int, x, y) && !(x == cx && y == cy)
                    implies stack@.contains((x as usize, y as usize)) || closed_at(out@, sw as int, sh as int, mq, mw as int, mh as int, conn, x, y) by {
                if stack_before.contains((x as usize, y as usize)) {
                    let k = choose|k: int| 0 <= k < stack_before.len() && stack_before[k] == (x as usize, y as usize);
                    if k == stack_before.len() - 1 {
                        assert(x == cx && y == cy);
                    } else {
                        assert(stack@[k] == (x as usize, y as usize));
                    }
                }
            }
        }
        let x0 = if cx >= 1 { cx - 1 } else { 0 };
        let x1 = if cx + 1 < sw { cx + 1 } else { cx };
        let y0 = if cy >= 1 { cy - 1 } else { 0 };
        let y1 = if cy + 1 < sh { cy + 1 } else { cy };
        let mut ny = y0;
        while ny <= y1
            invariant
                conn == connectivity as int,
                conn == 4 || conn == 8,
                mask@ == mq,
                sq.len() == sw * sh,
                sw * sh <= usize::MAX,
                mq.len() == mw * mh,
                in_grid(cx as int, cy as int, sw as int, sh as int),
                x0 == (if cx >= 1 { cx - 1 } else { 0 }),
                x1 == (if cx + 1 < sw { cx + 1 } else { cx as int }),
                y0 == (if cy >= 1 { cy - 1 } else { 0 }),
                y1 == (if cy + 1 < sh { cy + 1 } else { cy as int }),
                y0 <= ny <= y1 + 1,
                filled(out@, sw as int, cx as int, cy as int),
                fill_inv(out@, stack@, sq, sw as int, sh as int, mq, mw as int, mh as int, conn),
                pending_inv(out@, stack@, sw as int, sh as int, mq, mw as int, mh as int, conn, cx as int, cy as int),
                forall|x: int, y: int| in_grid(x, y, sw as int, sh as int) && #[trigger] filled(o0, sw as int, x, y) ==> filled(out@, sw as int, x, y),
                (count_nonzero(out@) == count_nonzero(out_before) && stack@.len() == stack_before.len() - 1)
                    || count_nonzero(out@) < count_nonzero(out_before),
                forall|qx: int, qy: int|
                    in_grid(qx, qy, sw as int, sh as int) && qy < ny && #[trigger] adjacent(conn, cx as int, cy as int, qx, qy)
                        && fillable(mq, mw as int, mh as int, qx, qy) ==> filled(out@, sw as int, qx, qy),
            decreases y1 + 1 - ny,
        {
            let mut nx = x0;
            while nx <= x1
                invariant
                    conn == connectivity as int,
                    conn == 4 || conn == 8,
                    mask@ == mq,
                    sq.len() == sw * sh,
                    sw * sh <= usize::MAX,
                    mq.len() == mw * mh,
                    in_grid(cx as int, cy as int, sw as int, sh as int),
                    x0 == (if cx >= 1 { cx - 1 } else { 0 }),
                    x1 == (if cx + 1 < sw { cx + 1 } else { cx as int }),
                    y0 == (if cy >= 1 { cy - 1 } else { 0 }),
                    y1 == (if cy + 1 < sh { cy + 1 } else { cy as int }),
                    y0 <= ny <= y1,
                    x0 <= nx <= x1 + 1,
                    filled(out@, sw as int, cx as int, cy as int),
                    fill_inv(out@, stack@, sq, sw as int, sh as int, mq, mw as int, mh as int, conn),
                    pending_inv(out@, stack@, sw as int, sh as int, mq, mw as int, mh as int, conn, cx as int, cy as int),
                    forall|x: int, y: int| in_grid(x, y, sw as int, sh as int) && #[trigger] filled(o0, sw as int, x, y) ==> filled(out@, sw as int, x, y),
                    (count_nonzero(out@) == count_nonzero(out_before) && stack@.len() == stack_before.len() - 1)
                        || count_nonzero(out@) < count_nonzero(out_before),
                    forall|qx: int, qy: int|
                        in_grid(qx, qy, sw as int, sh as int) && (qy < ny || (qy == ny && qx < nx)) && #[trigger] adjacent(conn, cx as int, cy as int, qx, qy)
                            && fillable(mq, mw as int, mh as int, qx, qy) ==> filled(out@, sw as int, qx, qy),
                decreases x1 + 1 - nx,
            {
                let ghost o1 = out@;
                try_fill(out, stack, sw, sh, mask, mw, mh, connectivity, Ghost(sq), cx, cy, nx, ny);
                proof {
                    assert forall|qx: int, qy: int|
                        in_grid(qx, qy, sw as int, sh as int) && (qy < ny || (qy == ny && qx < nx + 1)) && #[trigger] adjacent(conn, cx as int, cy as int, qx, qy)
                            && fillable(mq, mw as int, mh as int, qx, qy) implies filled(out@, sw as int, qx, qy) by {
                        if !(qy == ny && qx == nx) {
                            assert(filled(o1, sw as int, qx, qy));
                        }
                    }
                }
                nx += 1;
            }
            ny += 1;
        }
        proof {
            assert forall|qx: int, qy: int|
                in_grid(qx, qy, sw as int, sh as int) && #[trigger] adjacent(conn, cx as int, cy as int, qx, qy) && fillable(mq, mw as int, mh as int, qx, qy)
                    implies filled(out@, sw as int, qx, qy) by {
                assert(qy < ny);
            }
            assert(closed_at(out@, sw as int, sh as int, mq, mw as int, mh as int, conn, cx as int, cy as int));
        }
    }
}

/// Examine the candidate `(nx, ny)` around the popped pixel `(cx, cy)`: a
/// neighbour that lies on the mask and is not yet filled gets filled and
/// pushed.
fn try_fill(
    out: &mut Vec<u8>,
    stack: &mut Vec<(usize, usize)>,
    sw: usize,
    sh: usize,
    mask: &[u8],
    mw: usize,
    mh: usize,
    connectivity: u32,
    Ghost(sq): Ghost<Seq<u8>>,
    cx: usize,
    cy: usize,
    nx: usize,
    ny: usize,
)
    requires
        connectivity == 4 || connectivity == 8,
        sq.len() == sw * sh,
        sw * sh <= usize::MAX,
        mask@.len() == mw * mh,
        in_grid(cx as int, cy as int, sw as int, sh as int),
        in_grid(nx as int, ny as int, sw as int, sh as int),
        filled(old(out)@, sw as int, cx as int, cy as int),
        fill_inv(old(out)@, old(stack)@, sq, sw as int, sh as int, mask@, mw as int, mh as int, connectivity as int),
        pending_inv(old(out)@, old(stack)@, sw as int, sh as int, mask@, mw as int, mh as int, connectivity as int, cx as int, cy as int),
    ensures
        fill_inv(final(out)@, final(stack)@, sq, sw as int, sh as int, mask@, mw as int, mh as int, connectivity as int),
        pending_inv(final(out)@, final(stack)@, sw as int, sh as int, mask@, mw as int, mh as int, connectivity as int, cx as int, cy as int),
        filled(final(out)@, sw as int, cx as int, cy as int),
        forall|x: int, y: int| in_grid(x, y, sw as int, sh as int) && #[trigger] filled(old(out)@, sw as int, x, y) ==> filled(final(out)@, sw as int, x, y),
        adjacent(connectivity as int, cx as int, cy as int, nx as int, ny as int) && fillable(mask@, mw as int, mh as int, nx as int, ny as int)
            ==> filled(final(out)@, sw as int, nx as int, ny as int),
        (count_nonzero(final(out)@) == count_nonzero(old(out)@) && final(stack)@.len() == old(stack)@.len())
            || count_nonzero(final(out)@) < count_nonzero(old(out)@),
{
    let ghost conn = connectivity as int;
    let ghost mq = mask@;
    let near = cx <= nx + 1 && nx <= cx + 1 && cy <= ny + 1 && ny <= cy + 1;
    let diag = nx != cx && ny != cy;
    if !near || (nx == cx && ny == cy) || (connectivity == 4 && diag) {
        return;
    }
    proof {
        lemma_idx_bounds(nx as int, ny as int, sw as int, sh as int);
    }
    let pos = ny * sw + nx;
    let on_mask = mask_on(mask, mw, mh, nx, ny);
    if out[pos] != 0 && on_mask {
        proof {
            assert(adjacent(conn, cx as int, cy as int, nx as int, ny as int));
            assert forall|s: Set<(int, int)>|
                closed_set(s, sw as int, sh as int, mq, mw as int, mh as int, conn) && has_seeds(s, sq, sw as int, sh as int, mq, mw as int, mh as int)
                    implies #[trigger] s.contains((nx as int, ny as int)) by {
                assert(filled_within(out@, sw as int, sh as int, s));
                assert(s.contains((cx as int, cy as int)));
            }
            lemma_fill_keeps_inv(out@, stack@, sq, sw as int, sh as int, mq, mw as int, mh as int, conn, cx as int, cy as int, nx as int, ny as int);
            lemma_count_nonzero_clear(out@, pos as int);
        }
        out.set(pos, 0);
        stack.push((nx, ny));
    }
}

/// Law: filling again through the same mask from a fill result gives that
/// result back, so the reconstruction is idempotent.
pub proof fn lemma_reconstruction_idempotent(
    o1: Seq<u8>,
    o2: Seq<u8>,
    seed: Seq<u8>,
    sw: int,
    sh: int,
    mask: Seq<u8>,
    mw: int,
    mh: int,
    conn: int,
)
    requires
        0 <= sw,
        0 <= sh,
        is_reconstruction(o1, seed, sw, sh, mask, mw, mh, conn),
        is_reconstruction(o2, o1, sw, sh, mask, mw, mh, conn),
    ensures
        o2 == o1,
{
    let s = Set::new(|p: (int, int)| in_grid(p.0, p.1, sw, sh) && filled(o1, sw, p.0, p.1));
    assert(closed_set(s, sw, sh, mask, mw, mh, conn)) by {
        assert forall|x: int, y: int, qx: int, qy: int|
            #[trigger] s.contains((x, y)) && in_grid(qx, qy, sw, sh) && #[trigger] adjacent(conn, x, y, qx, qy) && fillable(mask, mw, mh, qx, qy)
                implies s.contains((qx, qy)) by {
            assert(closed_at(o1, sw, sh, mask, mw, mh, conn, x, y));
        }
    }
    assert(has_seeds(s, o1, sw, sh, mask, mw, mh));
    assert(filled_within(o2, sw, sh, s));
    assert forall|i: int| 0 <= i < o1.len() implies o2[i] == o1[i] by {
        crate::grid::lemma_idx_split(i, sw, sh);
        let x = i % sw;
        let y = i / sw;
        assert(idx(x, y, sw) == i);
        if filled(o1, sw, x, y) {
            assert(o1[idx(x, y, sw)] == 0);
        }
        if filled(o2, sw, x, y) {
            assert(s.contains((x, y)));
        }
    }
    assert(o2 =~= o1);
}

} // verus!
