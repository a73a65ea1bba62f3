use vstd::prelude::*;
use crate::grid::{Grid, in_bounds};
use crate::raster::{bresenham_line, line_seq, abs_diff};

verus! {

// Brightness scoring. The score of a candidate line is the arithmetic mean
// of the grid values under its pixels; coordinates outside the grid are left
// out of both the sum and the count. The mean is kept as the exact pair
// (sum, count) and two scores are compared by cross-multiplication, a total
// order on the represented rationals with no rounding.

/// An exact line brightness: the sum of the in-bounds pixel values under the
/// line and how many pixels contributed.
#[derive(PartialEq, Eq, Structural, Clone, Copy, Debug)]
pub struct LineScore {
    pub sum: u64,
    pub count: u64,
}

/// Sum of the grid values under the in-bounds points of `pts`.
pub open spec fn score_sum(g: Seq<u8>, w: int, h: int, pts: Seq<(int, int)>) -> int
    decreases pts.len(),
{
    if pts.len() == 0 {
        0
    } else {
        let p = pts.last();
        score_sum(g, w, h, pts.drop_last())
            + if in_bounds(w, h, p.0, p.1) && 0 <= p.1 * w + p.0 < g.len() {
                g[p.1 * w + p.0] as int
            } else {
                0
            }
    }
}

/// How many points of `pts` fall inside the grid.
pub open spec fn score_cnt(g: Seq<u8>, w: int, h: int, pts: Seq<(int, int)>) -> int
    decreases pts.len(),
{
    if pts.len() == 0 {
        0
    } else {
        let p = pts.last();
        score_cnt(g, w, h, pts.drop_last())
            + if in_bounds(w, h, p.0, p.1) && 0 <= p.1 * w + p.0 < g.len() {
                1int
            } else {
                0int
            }
    }
}

/// Whether the mean brightness `a` is strictly greater than `b`, by
/// cross-multiplication of the exact fractions; an empty score (count zero)
/// is never strictly greater than anything.
pub open spec fn score_gt(a: (int, int), b: (int, int)) -> bool {
    a.0 * b.1 > b.0 * a.1
}

/// The score sum never exceeds 255 per counted pixel, and the count never
/// exceeds the number of points.
pub proof fn lemma_score_bounds(g: Seq<u8>, w: int, h: int, pts: Seq<(int, int)>)
    ensures
        0 <= score_cnt(g, w, h, pts) <= pts.len(),
        0 <= score_sum(g, w, h, pts) <= 255 * score_cnt(g, w, h, pts),
    decreases pts.len(),
{
    if pts.len() > 0 {
        lemma_score_bounds(g, w, h, pts.drop_last());
    }
}

/// The mean brightness of the grid under the rasterized line from `start` to
/// `end`, as the exact pair of sum and count.
pub fn line_average(img: &Grid, start: (i32, i32), end: (i32, i32)) -> (r: LineScore)
    requires
        img.wf(),
        img.width <= 1048576,
        img.height <= 1048576,
        -536870912 <= start.0 <= 536870912,
        -536870912 <= start.1 <= 536870912,
        -536870912 <= end.0 <= 536870912,
        -536870912 <= end.1 <= 536870912,
    ensures
        r.sum == score_sum(img.data@, img.width as int, img.height as int,
            line_seq(start.0 as int, start.1 as int, end.0 as int, end.1 as int)),
        r.count == score_cnt(img.data@, img.width as int, img.height as int,
            line_seq(start.0 as int, start.1 as int, end.0 as int, end.1 as int)),
        r.sum <= 255 * r.count,
        r.count <= line_seq(start.0 as int, start.1 as int, end.0 as int, end.1 as int).len(),
{
    let w = img.width;
    let h = img.height;
    let pts = bresenham_line(start, end);
    let ghost l = line_seq(start.0 as int, start.1 as int, end.0 as int, end.1 as int);
    let ghost gdata = img.data@;
    let n = pts.len();
    let mut sum: u64 = 0;
    let mut count: u64 = 0;
    let mut i: usize = 0;
    proof {
        assert(l.take(0) =~= Seq::<(int, int)>::empty());
    }
    while i < n
        invariant
            img.wf(),
            img.data@ == gdata,
            w == img.width,
            h == img.height,
            w <= 1048576,
            h <= 1048576,
            i <= n,
            n == pts@.len(),
            n == l.len(),
            n <= 2147483649,
            pts@.map_values(|p: (i32, i32)| (p.0 as int, p.1 as int)) == l,
            sum == score_sum(gdata, w as int, h as int, l.take(i as int)),
            count == score_cnt(gdata, w as int, h as int, l.take(i as int)),
            count <= i,
            sum <= 255 * count,
        decreases n - i,
    {
        let (x, y) = pts[i];
        proof {
            assert(l[i as int]
                == (pts@.map_values(|p: (i32, i32)| (p.0 as int, p.1 as int)))[i as int]);
            assert(l.take(i + 1).drop_last() =~= l.take(i as int));
            assert(l.take(i + 1).last() == l[i as int]);
            lemma_score_bounds(gdata, w as int, h as int, l.take(i as int));
        }
        if x >= 0 && y >= 0 && (x as usize) < w && (y as usize) < h {
            let buflen = img.data.len();
            proof {
                assert((y as int) * (w as int) + (x as int) < (h as int) * (w as int))
                    by (nonlinear_arith)
                    requires 0 <= (x as int) < (w as int), 0 <= (y as int) < (h as int);
                assert((h as int) * (w as int) == (w as int) * (h as int)) by (nonlinear_arith);
            }
            let idx = (y as usize) * w + (x as usize);
            let v = img.data[idx];
            sum = sum + v as u64;
            count = count + 1;
        }
        i = i + 1;
    }
    proof {
        assert(l.take(n as int) =~= l);
    }
    LineScore { sum, count }
}

/// The brightness score of the line from `start` to each of `edges`, in
/// the same order.
pub fn compute_line_vals(img: &Grid, start: (i32, i32), edges: &Vec<(i32, i32)>) -> (r: Vec<
    ((i32, i32), LineScore),
>)
    requires
        img.wf(),
        img.width <= 1048576,
        img.height <= 1048576,
        -536870912 <= start.0 <= 536870912,
        -536870912 <= start.1 <= 536870912,
        forall|k: int| 0 <= k < edges@.len()
            ==> -536870912 <= (#[trigger] edges@[k]).0 <= 536870912
                && -536870912 <= edges@[k].1 <= 536870912,
    ensures
        r@.len() == edges@.len(),
        forall|k: int| 0 <= k < edges@.len() ==> {
            let sc = (#[trigger] r@[k]).1;
            &&& r@[k].0 == edges@[k]
            &&& sc.sum == score_sum(img.data@, img.width as int, img.height as int,
                line_seq(start.0 as int, start.1 as int, edges@[k].0 as int, edges@[k].1 as int))
            &&& sc.count == score_cnt(img.data@, img.width as int, img.height as int,
                line_seq(start.0 as int, start.1 as int, edges@[k].0 as int, edges@[k].1 as int))
        },
{
    let n = edges.len();
    let mut r: Vec<((i32, i32), LineScore)> = Vec::new();
    let mut i: usize = 0;
    while i < n
        invariant
            img.wf(),
            img.width <= 1048576,
            img.height <= 1048576,
            -536870912 <= start.0 <= 536870912,
            -536870912 <= start.1 <= 536870912,
            forall|k: int| 0 <= k < edges@.len()
                ==> -536870912 <= (#[trigger] edges@[k]).0 <= 536870912
                    && -536870912 <= edges@[k].1 <= 536870912,
            i <= n,
            n == edges@.len(),
            r@.len() == i,
            forall|k: int| 0 <= k < i ==> {
                let sc = (#[trigger] r@[k]).1;
                &&& r@[k].0 == edges@[k]
                &&& sc.sum == score_sum(img.data@, img.width as int, img.height as int,
                    line_seq(start.0 as int, start.1 as int, edges@[k].0 as int, edges@[k].1 as int))
                &&& sc.count == score_cnt(img.data@, img.width as int, img.height as int,
                    line_seq(start.0 as int, start.1 as int, edges@[k].0 as int, edges@[k].1 as int))
            },
        decreases n - i,
    {
        let e = edges[i];
        let sc = line_average(img, start, e);
        r.push((e, sc));
        i = i + 1;
    }
    r
}

/// The view of a scored candidate list: each score as an exact
/// (sum, count) pair of integers.
pub open spec fn scores_view(s: Seq<((i32, i32), LineScore)>) -> Seq<(int, int)> {
    s.map_values(|e: ((i32, i32), LineScore)| (e.1.sum as int, e.1.count as int))
}

/// The index of the first maximal score: a later score displaces an earlier
/// one only when strictly greater, so ties keep the first occurrence.
pub open spec fn first_max_idx(s: Seq<(int, int)>) -> int
    decreases s.len(),
{
    if s.len() <= 1 {
        0
    } else {
        let p = first_max_idx(s.drop_last());
        if score_gt(s.last(), s[p]) {
            s.len() - 1
        } else {
            p
        }
    }
}

/// With non-negative sums and counts, the first maximal score is in range
/// and no score in the list strictly beats it.
pub proof fn lemma_first_max_props(s: Seq<(int, int)>)
    requires
        s.len() >= 1,
        forall|k: int| 0 <= k < s.len() ==> 0 <= (#[trigger] s[k]).0 && 0 <= s[k].1,
    ensures
        0 <= first_max_idx(s) < s.len(),
        forall|k: int| 0 <= k < s.len() ==> !score_gt(#[trigger] s[k], s[first_max_idx(s)]),
    decreases s.len(),
{
    if s.len() > 1 {
        let sd = s.drop_last();
        assert(forall|k: int| 0 <= k < sd.len() ==> #[trigger] sd[k] == s[k]);
        lemma_first_max_props(sd);
        let p = first_max_idx(sd);
        let q = first_max_idx(s);
        assert forall|k: int| 0 <= k < s.len() implies !score_gt(#[trigger] s[k], s[q]) by {
            if k < s.len() - 1 {
                assert(!score_gt(sd[k], sd[p]));
                assert(sd[k] == s[k]);
                assert(sd[p] == s[p]);
                if score_gt(s.last(), s[p]) {
                    // transitivity of the strict cross-multiplication order
                    assert(s[k].0 * s[q].1 <= s[q].0 * s[k].1) by (nonlinear_arith)
                        requires
                            s[k].0 * s[p].1 <= s[p].0 * s[k].1,
                            s[q].0 * s[p].1 > s[p].0 * s[q].1,
                            0 <= s[k].0, 0 <= s[k].1,
                            0 <= s[p].0, 0 <= s[p].1,
                            0 <= s[q].0, 0 <= s[q].1;
                }
            }
        }
    }
}

/// The index of the first candidate with the greatest score, ties resolved
/// to the earliest candidate.
pub fn find_max_index(line_data: &Vec<((i32, i32), LineScore)>) -> (r: usize)
    requires
        line_data@.len() >= 1,
    ensures
        r < line_data@.len(),
        r == first_max_idx(scores_view(line_data@)),
{
    let ghost sv = scores_view(line_data@);
    let n = line_data.len();
    let mut best: usize = 0;
    let mut i: usize = 1;
    proof {
        assert(sv.take(1).len() == 1);
        assert(first_max_idx(sv.take(1)) == 0);
    }
    while i < n
        invariant
            1 <= i <= n,
            n == line_data@.len(),
            sv == scores_view(line_data@),
            sv.len() == n,
            best < i,
            best == first_max_idx(sv.take(i as int)),
        decreases n - i,
    {
        proof {
            assert(sv.take(i + 1).drop_last() =~= sv.take(i as int));
            assert(sv.take(i + 1).last() == sv[i as int]);
            assert(sv[i as int]
                == (line_data@[i as int].1.sum as int, line_data@[i as int].1.count as int));
            assert(sv.take(i as int)[best as int] == sv[best as int]);
            assert(sv[best as int]
                == (line_data@[best as int].1.sum as int, line_data@[best as int].1.count as int));
        }
        let ci = line_data[i].1;
        let cb = line_data[best].1;
        proof {
            assert((ci.sum as int) * (cb.count as int) < 0x100000000000000000000000000000000
                && (cb.sum as int) * (ci.count as int) < 0x100000000000000000000000000000000)
                by (nonlinear_arith)
                requires
                    0 <= ci.sum < 0x10000000000000000,
                    0 <= cb.count < 0x10000000000000000,
                    0 <= cb.sum < 0x10000000000000000,
                    0 <= ci.count < 0x10000000000000000;
        }
        if (ci.sum as u128) * (cb.count as u128) > (cb.sum as u128) * (ci.count as u128) {
            best = i;
        }
        i = i + 1;
    }
    proof {
        assert(sv.take(n as int) =~= sv);
    }
    best
}

} // verus!
