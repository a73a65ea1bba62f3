use vstd::prelude::*;

verus! {

// Line rasterization. The discrete path between two pixels is produced by
// incremental error accumulation: starting from one endpoint, each step moves
// one pixel along the x axis, the y axis, or both, whichever keeps the
// accumulated error smallest, until the other endpoint is reached. The model
// below works in "progress space": `(px, py)` counts how many of the `dx`
// x-steps and `dy` y-steps have been taken, and the step tests are the
// error-accumulation tests rewritten over the progress counters.

/// Whether the error test lets the walk take an x step at progress
/// `(px, py)` towards `(dx, dy)`.
pub open spec fn xstep(dx: int, dy: int, px: int, py: int) -> bool {
    2 * dx * (1 + py) > dy * (1 + 2 * px)
}

/// Whether the error test lets the walk take a y step at progress
/// `(px, py)` towards `(dx, dy)`.
pub open spec fn ystep(dx: int, dy: int, px: int, py: int) -> bool {
    dx * (1 + 2 * py) < 2 * dy * (1 + px)
}

/// The progress-space points the walk visits from `(px, py)` up to
/// `(dx, dy)`, both included.
pub open spec fn bres_prog(dx: int, dy: int, px: int, py: int) -> Seq<(int, int)>
    decreases (dx - px) + (dy - py),
{
    if !(0 <= px <= dx && 0 <= py <= dy) {
        Seq::empty()
    } else if px == dx && py == dy {
        seq![(px, py)]
    } else {
        let nx = if xstep(dx, dy, px, py) && px < dx { px + 1 } else { px };
        let ny = if ystep(dx, dy, px, py) && py < dy { py + 1 } else { py };
        if nx == px && ny == py {
            seq![(px, py)]
        } else {
            seq![(px, py)] + bres_prog(dx, dy, nx, ny)
        }
    }
}

/// The error accumulator is a linear function of the progress counters; at
/// any in-range progress short of the end, the step tests allow at least one
/// step, and never a step beyond the end. So the defensive stops in
/// `bres_prog` are never taken: the walk always reaches `(dx, dy)`.
proof fn lemma_step_progress(dx: int, dy: int, px: int, py: int)
    requires
        0 <= px <= dx,
        0 <= py <= dy,
        !(px == dx && py == dy),
    ensures
        xstep(dx, dy, px, py) || ystep(dx, dy, px, py),
        px == dx ==> !xstep(dx, dy, px, py),
        py == dy ==> !ystep(dx, dy, px, py),
{
    assert(2 * dx * (1 + py) <= dy * (1 + 2 * px) && dx * (1 + 2 * py) >= 2 * dy * (1 + px)
        ==> false) by (nonlinear_arith)
        requires 0 <= px <= dx, 0 <= py <= dy, !(px == dx && py == dy);
    if px == dx {
        assert(!(2 * dx * (1 + py) > dy * (1 + 2 * px))) by (nonlinear_arith)
            requires px == dx, 0 <= py < dy, 0 <= dx;
    }
    if py == dy {
        assert(!(dx * (1 + 2 * py) < 2 * dy * (1 + px))) by (nonlinear_arith)
            requires py == dy, 0 <= px < dx, 0 <= dy;
    }
}

/// Structure of the walk: it visits at least one point, starts at `(px, py)`,
/// ends at `(dx, dy)`, and is never longer than the remaining step budget.
proof fn lemma_bres_prog_shape(dx: int, dy: int, px: int, py: int)
    requires
        0 <= px <= dx,
        0 <= py <= dy,
    ensures
        bres_prog(dx, dy, px, py).len() >= 1,
        bres_prog(dx, dy, px, py).len() <= (dx - px) + (dy - py) + 1,
        bres_prog(dx, dy, px, py)[0] == (px, py),
        bres_prog(dx, dy, px, py).last() == (dx, dy),
    decreases (dx - px) + (dy - py),
{
    if px == dx && py == dy {
    } else {
        lemma_step_progress(dx, dy, px, py);
        let nx = if xstep(dx, dy, px, py) && px < dx { px + 1 } else { px };
        let ny = if ystep(dx, dy, px, py) && py < dy { py + 1 } else { py };
        lemma_bres_prog_shape(dx, dy, nx, ny);
    }
}

/// The absolute difference.
pub open spec fn abs_diff(a: int, b: int) -> int {
    if a >= b { a - b } else { b - a }
}

/// The step direction along one axis.
pub open spec fn step_sign(from: int, to: int) -> int {
    if from < to { 1 } else { -1 }
}

/// The pixel coordinates of the rasterized line from `(x0, y0)` to
/// `(x1, y1)`: the progress-space walk mapped back onto the image plane.
pub open spec fn line_seq(x0: int, y0: int, x1: int, y1: int) -> Seq<(int, int)> {
    bres_prog(abs_diff(x1, x0), abs_diff(y1, y0), 0, 0).map_values(
        |p: (int, int)| (x0 + step_sign(x0, x1) * p.0, y0 + step_sign(y0, y1) * p.1),
    )
}

/// The rasterized line: starts at `start`, ends at `end`, visits
/// `line_seq` exactly; a degenerate segment gives a single pixel.
pub fn bresenham_line(start: (i32, i32), end: (i32, i32)) -> (r: Vec<(i32, i32)>)
    requires
        -536870912 <= start.0 <= 536870912,
        -536870912 <= start.1 <= 536870912,
        -536870912 <= end.0 <= 536870912,
        -536870912 <= end.1 <= 536870912,
    ensures
        r@.map_values(|p: (i32, i32)| (p.0 as int, p.1 as int))
            == line_seq(start.0 as int, start.1 as int, end.0 as int, end.1 as int),
        r@.len() >= 1,
        r@.len() <= abs_diff(end.0 as int, start.0 as int) + abs_diff(end.1 as int, start.1 as int) + 1,
        r@[0] == start,
        r@[r@.len() - 1] == end,
        start == end ==> r@.len() == 1,
{
    let x0 = start.0 as i64;
    let y0 = start.1 as i64;
    let x1 = end.0 as i64;
    let y1 = end.1 as i64;
    let dx = if x1 >= x0 { x1 - x0 } else { x0 - x1 };
    let dy = if y1 >= y0 { y1 - y0 } else { y0 - y1 };
    let sx: i64 = if x0 < x1 { 1 } else { -1 };
    let sy: i64 = if y0 < y1 { 1 } else { -1 };
    let ghost l = line_seq(x0 as int, y0 as int, x1 as int, y1 as int);
    let mut pts: Vec<(i32, i32)> = Vec::new();
    let mut x = x0;
    let mut y = y0;
    let mut err = dx - dy;
    let ghost mut px: int = 0;
    let ghost mut py: int = 0;
    proof {
        lemma_bres_prog_shape(dx as int, dy as int, 0, 0);
        if x0 < x1 {
            assert(x1 == x0 + sx * dx) by (nonlinear_arith)
                requires sx == 1, dx == x1 - x0;
        } else {
            assert(x1 == x0 + sx * dx) by (nonlinear_arith)
                requires sx == -1, dx == x0 - x1;
        }
        if y0 < y1 {
            assert(y1 == y0 + sy * dy) by (nonlinear_arith)
                requires sy == 1, dy == y1 - y0;
        } else {
            assert(y1 == y0 + sy * dy) by (nonlinear_arith)
                requires sy == -1, dy == y0 - y1;
        }
        assert(x == x0 + sx * 0) by (nonlinear_arith)
            requires x == x0;
        assert(y == y0 + sy * 0) by (nonlinear_arith)
            requires y == y0;
    }
    loop
        invariant_except_break
            l.len() == pts@.len() + bres_prog(dx as int, dy as int, px, py).len(),
            forall|j: int| pts@.len() <= j < l.len()
                ==> #[trigger] l[j]
                    == ((x0 + sx * bres_prog(dx as int, dy as int, px, py)[j - pts@.len()].0),
                        (y0 + sy * bres_prog(dx as int, dy as int, px, py)[j - pts@.len()].1)),
        invariant
            dx == abs_diff(x1 as int, x0 as int),
            dy == abs_diff(y1 as int, y0 as int),
            0 <= dx <= 1073741824,
            0 <= dy <= 1073741824,
            sx == step_sign(x0 as int, x1 as int),
            sy == step_sign(y0 as int, y1 as int),
            -536870912 <= x0 <= 536870912,
            -536870912 <= y0 <= 536870912,
            x1 == x0 + sx * dx,
            y1 == y0 + sy * dy,
            0 <= px <= dx,
            0 <= py <= dy,
            x == x0 + sx * px,
            y == y0 + sy * py,
            err == dx - dy + py * dx - px * dy,
            l == line_seq(x0 as int, y0 as int, x1 as int, y1 as int),
            forall|k: int| 0 <= k < pts@.len()
                ==> ((#[trigger] pts@[k]).0 as int, pts@[k].1 as int) == l[k],
        ensures
            px == dx && py == dy,
            x == x1 && y == y1,
            l.len() == pts@.len(),
            forall|k: int| 0 <= k < pts@.len()
                ==> ((#[trigger] pts@[k]).0 as int, pts@[k].1 as int) == l[k],
            pts@.len() >= 1,
            pts@[pts@.len() - 1] == (x1 as i32, y1 as i32),
        decreases (dx - px) + (dy - py),
    {
        proof {
            lemma_bres_prog_shape(dx as int, dy as int, px, py);
            assert(bres_prog(dx as int, dy as int, px, py)[0] == (px, py));
            assert(l[pts@.len() as int] == ((x0 + sx * px), (y0 + sy * py)));
            assert(-2147483647 <= x <= 2147483647) by (nonlinear_arith)
                requires
                    x == x0 + sx * px,
                    -536870912 <= x0 <= 536870912,
                    0 <= px <= 1073741824,
                    sx == 1 || sx == -1;
            assert(-2147483647 <= y <= 2147483647) by (nonlinear_arith)
                requires
                    y == y0 + sy * py,
                    -536870912 <= y0 <= 536870912,
                    0 <= py <= 1073741824,
                    sy == 1 || sy == -1;
        }
        pts.push((x as i32, y as i32));
        if x == x1 && y == y1 {
            proof {
                assert(px == dx) by (nonlinear_arith)
                    requires x == x1, x == x0 + sx * px, x1 == x0 + sx * dx, sx == 1 || sx == -1;
                assert(py == dy) by (nonlinear_arith)
                    requires y == y1, y == y0 + sy * py, y1 == y0 + sy * dy, sy == 1 || sy == -1;
                assert(bres_prog(dx as int, dy as int, px, py).len() == 1);
            }
            break;
        }
        proof {
            assert(!(px == dx && py == dy)) by (nonlinear_arith)
                requires
                    !(x == x1 && y == y1),
                    x == x0 + sx * px, x1 == x0 + sx * dx,
                    y == y0 + sy * py, y1 == y0 + sy * dy,
                    sx == 1 || sx == -1, sy == 1 || sy == -1;
            lemma_step_progress(dx as int, dy as int, px, py);
            // Error bound keeps the doubled accumulator inside i64.
            assert(-2305843009213693952 <= err && err <= 2305843009213693952) by (nonlinear_arith)
                requires
                    err == dx - dy + py * dx - px * dy,
                    0 <= px <= dx <= 1073741824,
                    0 <= py <= dy <= 1073741824;
            // The exec error tests coincide with the progress-space tests.
            assert((2 * err > -dy) == xstep(dx as int, dy as int, px, py)) by (nonlinear_arith)
                requires err == dx - dy + py * dx - px * dy;
            assert((2 * err < dx) == ystep(dx as int, dy as int, px, py)) by (nonlinear_arith)
                requires err == dx - dy + py * dx - px * dy;
        }
        let e2 = 2 * err;
        let xt = e2 > -dy;
        let yt = e2 < dx;
        let ghost opx = px;
        let ghost opy = py;
        let ghost ox = x as int;
        let ghost oy = y as int;
        let ghost oerr = err as int;
        let ghost olen = pts@.len() as int;
        if xt {
            err = err - dy;
            x = x + sx;
            proof {
                px = px + 1;
            }
        }
        if yt {
            err = err + dx;
            y = y + sy;
            proof {
                py = py + 1;
            }
        }
        proof {
            let dxi = dx as int;
            let dyi = dy as int;
            assert(xt == xstep(dxi, dyi, opx, opy));
            assert(yt == ystep(dxi, dyi, opx, opy));
            assert(xt ==> opx < dxi);
            assert(yt ==> opy < dyi);
            // The step counters drive the coordinates and the accumulator.
            if xt {
                assert(x0 + sx * (opx + 1) == x0 + sx * opx + sx) by (nonlinear_arith);
            }
            if yt {
                assert(y0 + sy * (opy + 1) == y0 + sy * opy + sy) by (nonlinear_arith);
            }
            assert(x == x0 + sx * px);
            assert(y == y0 + sy * py);
            if xt && yt {
                assert(oerr - dyi + dxi == dxi - dyi + (opy + 1) * dxi - (opx + 1) * dyi)
                    by (nonlinear_arith)
                    requires oerr == dxi - dyi + opy * dxi - opx * dyi;
            } else if xt {
                assert(oerr - dyi == dxi - dyi + opy * dxi - (opx + 1) * dyi)
                    by (nonlinear_arith)
                    requires oerr == dxi - dyi + opy * dxi - opx * dyi;
            } else if yt {
                assert(oerr + dxi == dxi - dyi + (opy + 1) * dxi - opx * dyi)
                    by (nonlinear_arith)
                    requires oerr == dxi - dyi + opy * dxi - opx * dyi;
            }
            assert(err == dxi - dyi + py * dxi - px * dyi);
            // One node of the walk was consumed: re-establish the suffix view.
            let olds = bres_prog(dxi, dyi, opx, opy);
            let news = bres_prog(dxi, dyi, px, py);
            assert(olds == seq![(opx, opy)] + news);
            assert(olds.len() == news.len() + 1);
            assert(pts@.len() == olen);
            assert forall|j: int| pts@.len() <= j < l.len()
                implies #[trigger] l[j]
                    == ((x0 + sx * news[j - pts@.len()].0), (y0 + sy * news[j - pts@.len()].1)) by {
                assert(olds[j - (olen - 1)] == news[j - olen]);
                assert(l[j] == ((x0 + sx * olds[j - (olen - 1)].0), (y0 + sy * olds[j - (olen - 1)].1)));
            }
            assert forall|k: int| 0 <= k < pts@.len()
                implies ((#[trigger] pts@[k]).0 as int, pts@[k].1 as int) == l[k] by {
                if k == olen - 1 {
                    assert(l[olen - 1] == ((x0 + sx * opx), (y0 + sy * opy)));
                    assert(pts@[k] == ((ox as i32), (oy as i32)));
                }
            }
        }
    }
    proof {
        assert(pts@.map_values(|p: (i32, i32)| (p.0 as int, p.1 as int)) =~= l);
        assert(l[0] == ((x0 as int) + (step_sign(x0 as int, x1 as int)) * 0,
            (y0 as int) + (step_sign(y0 as int, y1 as int)) * 0));
        assert((pts@[0].0 as int, pts@[0].1 as int) == l[0]);
    }
    pts
}


/// On a purely horizontal segment the walk only ever steps in x.
proof fn lemma_bres_prog_h(dx: int, px: int)
    requires
        0 <= px <= dx,
    ensures
        bres_prog(dx, 0, px, 0).len() == dx - px + 1,
        forall|k: int| 0 <= k <= dx - px ==> #[trigger] bres_prog(dx, 0, px, 0)[k] == (px + k, 0int),
    decreases dx - px,
{
    if px < dx {
        assert(xstep(dx, 0, px, 0)) by (nonlinear_arith)
            requires 0 <= px < dx;
        assert(!ystep(dx, 0, px, 0)) by (nonlinear_arith)
            requires 0 <= px < dx;
        lemma_bres_prog_h(dx, px + 1);
        assert(bres_prog(dx, 0, px, 0) == seq![(px, 0)] + bres_prog(dx, 0, px + 1, 0));
    }
}

/// On a purely vertical segment the walk only ever steps in y.
proof fn lemma_bres_prog_v(dy: int, py: int)
    requires
        0 <= py <= dy,
    ensures
        bres_prog(0, dy, 0, py).len() == dy - py + 1,
        forall|k: int| 0 <= k <= dy - py ==> #[trigger] bres_prog(0, dy, 0, py)[k] == (0int, py + k),
    decreases dy - py,
{
    if py < dy {
        assert(!xstep(0, dy, 0, py)) by (nonlinear_arith)
            requires 0 <= py < dy;
        assert(ystep(0, dy, 0, py)) by (nonlinear_arith)
            requires 0 <= py < dy;
        lemma_bres_prog_v(dy, py + 1);
        assert(bres_prog(0, dy, 0, py) == seq![(0, py)] + bres_prog(0, dy, 0, py + 1));
    }
}

/// On an exact diagonal the walk steps in x and y together.
proof fn lemma_bres_prog_d(e: int, p: int)
    requires
        0 <= p <= e,
    ensures
        bres_prog(e, e, p, p).len() == e - p + 1,
        forall|k: int| 0 <= k <= e - p ==> #[trigger] bres_prog(e, e, p, p)[k] == (p + k, p + k),
    decreases e - p,
{
    if p < e {
        assert(xstep(e, e, p, p)) by (nonlinear_arith)
            requires 0 <= p < e;
        assert(ystep(e, e, p, p)) by (nonlinear_arith)
            requires 0 <= p < e;
        lemma_bres_prog_d(e, p + 1);
        assert(bres_prog(e, e, p, p) == seq![(p, p)] + bres_prog(e, e, p + 1, p + 1));
    }
}

/// Rasterization symmetry on axis-aligned and exactly diagonal segments:
/// walking the segment from either end visits the same set of pixels, in
/// reversed order. (A general sloped segment does not have this property:
/// the walks from the two ends can bend at different pixels.)
pub proof fn lemma_raster_symmetry(x0: int, y0: int, x1: int, y1: int)
    requires
        x0 == x1 || y0 == y1 || abs_diff(x1, x0) == abs_diff(y1, y0),
    ensures
        forall|p: (int, int)| line_seq(x0, y0, x1, y1).contains(p)
            <==> line_seq(x1, y1, x0, y0).contains(p),
        line_seq(x0, y0, x1, y1).to_set() == line_seq(x1, y1, x0, y0).to_set(),
{
    let f = line_seq(x0, y0, x1, y1);
    let b = line_seq(x1, y1, x0, y0);
    let dx = abs_diff(x1, x0);
    let dy = abs_diff(y1, y0);
    let sxf = step_sign(x0, x1);
    let syf = step_sign(y0, y1);
    let sxb = step_sign(x1, x0);
    let syb = step_sign(y1, y0);
    let n: int = if dx >= dy { dx + 1 } else { dy + 1 };
    assert(f.len() == n && b.len() == n && forall|i: int| 0 <= i < n ==> #[trigger] b[n - 1 - i] == f[i]) by {
        if x0 == x1 && y0 == y1 {
            lemma_bres_prog_d(0, 0);
        } else if y0 == y1 {
            lemma_bres_prog_h(dx, 0);
            assert forall|i: int| 0 <= i < n implies #[trigger] b[n - 1 - i] == f[i] by {
                assert(f[i] == (x0 + sxf * i, y0 + syf * 0));
                assert(b[n - 1 - i] == (x1 + sxb * (dx - i), y1 + syb * 0));
                assert(x1 + sxb * (dx - i) == x0 + sxf * i) by (nonlinear_arith)
                    requires
                        sxb == -sxf,
                        sxf == 1 || sxf == -1,
                        x1 == x0 + sxf * dx;
                assert(sxf * 0 == 0 && sxb * 0 == 0 && syf * 0 == 0 && syb * 0 == 0)
                    by (nonlinear_arith);
            }
        } else if x0 == x1 {
            lemma_bres_prog_v(dy, 0);
            assert forall|i: int| 0 <= i < n implies #[trigger] b[n - 1 - i] == f[i] by {
                assert(f[i] == (x0 + sxf * 0, y0 + syf * i));
                assert(b[n - 1 - i] == (x1 + sxb * 0, y1 + syb * (dy - i)));
                assert(y1 + syb * (dy - i) == y0 + syf * i) by (nonlinear_arith)
                    requires
                        syb == -syf,
                        syf == 1 || syf == -1,
                        y1 == y0 + syf * dy;
                assert(sxf * 0 == 0 && sxb * 0 == 0 && syf * 0 == 0 && syb * 0 == 0)
                    by (nonlinear_arith);
            }
        } else {
            lemma_bres_prog_d(dx, 0);
            assert forall|i: int| 0 <= i < n implies #[trigger] b[n - 1 - i] == f[i] by {
                assert(f[i] == (x0 + sxf * i, y0 + syf * i));
                assert(b[n - 1 - i] == (x1 + sxb * (dx - i), y1 + syb * (dx - i)));
                assert(x1 + sxb * (dx - i) == x0 + sxf * i) by (nonlinear_arith)
                    requires
                        sxb == -sxf,
                        sxf == 1 || sxf == -1,
                        x1 == x0 + sxf * dx;
                assert(y1 + syb * (dx - i) == y0 + syf * i) by (nonlinear_arith)
                    requires
                        syb == -syf,
                        syf == 1 || syf == -1,
                        y1 == y0 + syf * dx;
            }
        }
    }
    assert forall|p: (int, int)| f.contains(p) implies b.contains(p) by {
        let i = choose|i: int| 0 <= i < f.len() && f[i] == p;
        assert(b[n - 1 - i] == p);
    }
    assert forall|p: (int, int)| b.contains(p) implies f.contains(p) by {
        let j = choose|j: int| 0 <= j < b.len() && b[j] == p;
        assert(b[n - 1 - (n - 1 - j)] == f[n - 1 - j]);
        assert(f[n - 1 - j] == p);
    }
    assert(f.to_set() =~= b.to_set());
}

} // verus!
