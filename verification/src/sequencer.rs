use vstd::prelude::*;
use crate::circ_dist;
use crate::grid::{Grid, decay_seq};
use crate::hooks::{hook_x, hook_y, generate_circle_coordinates};
use crate::raster::{line_seq, bresenham_line};
use crate::score::{score_sum, score_cnt, first_max_idx, scores_view, compute_line_vals,
    find_max_index};

verus! {

// The greedy sequencer. Starting from hook 0, each step scores the line to
// every eligible candidate hook against the current (already decayed) grid,
// moves to the first candidate with the highest mean brightness, decays the
// pixels under the chosen line, and records the transition. The whole run is
// a pure function of the starting grid and the configuration, written out by
// `run_state` below; the executable code is proved to follow it step by step.

/// Why a run can refuse to produce a sequence.
#[derive(PartialEq, Eq, Structural, Debug, Clone, Copy)]
pub enum StringArtError {
    /// The configuration itself is unusable: fewer than two hooks, no
    /// strings requested, or a multiplier that is not positive.
    InvalidConfiguration,
    /// The neighbour distance leaves no eligible candidate from any hook,
    /// so no step can ever select a winner.
    CandidateExhaustion,
}

/// The knobs of a run: hook count, requested string count, the decay
/// multiplier as an exact fraction `contrast_num / contrast_den`, and the
/// minimum circular index distance between connected hooks.
pub struct Config {
    pub hooks: usize,
    pub strings: usize,
    pub contrast_num: u64,
    pub contrast_den: u64,
    pub neighbour_dist: usize,
}

impl Config {
    /// What the run demands of its configuration: at least two hooks, at
    /// least one string, a positive multiplier.
    pub open spec fn valid(&self) -> bool {
        &&& 2 <= self.hooks
        &&& 1 <= self.strings
        &&& 1 <= self.contrast_num
        &&& 1 <= self.contrast_den
    }
}

/// Whether hook `j` may be connected from hook `cur`: distinct hooks whose
/// circular index distance exceeds the neighbour distance `d`.
pub open spec fn eligible(n: int, d: int, cur: int, j: int) -> bool {
    0 <= j < n && circ_dist(n, cur, j) > d
}

/// The eligible hook indices below `k`, in increasing order.
pub open spec fn cands_upto(n: int, d: int, cur: int, k: int) -> Seq<int>
    decreases k,
{
    if k <= 0 {
        Seq::empty()
    } else if eligible(n, d, cur, k - 1) {
        cands_upto(n, d, cur, k - 1).push(k - 1)
    } else {
        cands_upto(n, d, cur, k - 1)
    }
}

/// The candidate set from hook `cur`: all eligible hooks, in index order.
pub open spec fn cand_seq(n: int, d: int, cur: int) -> Seq<int> {
    cands_upto(n, d, cur, n)
}

/// Every entry of the candidate list is an eligible hook below `k`.
pub proof fn lemma_cands_elems(n: int, d: int, cur: int, k: int)
    ensures
        forall|idx: int| 0 <= idx < cands_upto(n, d, cur, k).len()
            ==> eligible(n, d, cur, #[trigger] cands_upto(n, d, cur, k)[idx])
                && cands_upto(n, d, cur, k)[idx] < k,
    decreases k,
{
    if k > 0 {
        lemma_cands_elems(n, d, cur, k - 1);
        let prev = cands_upto(n, d, cur, k - 1);
        let curr = cands_upto(n, d, cur, k);
        assert forall|idx: int| 0 <= idx < curr.len()
            implies eligible(n, d, cur, #[trigger] curr[idx]) && curr[idx] < k by {
            if idx < prev.len() {
                assert(curr[idx] == prev[idx]);
            } else {
                assert(eligible(n, d, cur, k - 1));
                assert(curr[idx] == k - 1);
            }
        }
    }
}

/// An eligible hook below `k` guarantees the candidate list is not empty.
pub proof fn lemma_cands_nonempty(n: int, d: int, cur: int, k: int, j: int)
    requires
        0 <= j < k,
        eligible(n, d, cur, j),
    ensures
        cands_upto(n, d, cur, k).len() >= 1,
    decreases k,
{
    if j < k - 1 {
        lemma_cands_nonempty(n, d, cur, k - 1, j);
    }
}

/// When `2*d + 2 <= n`, the hook half a ring away from `cur` is eligible:
/// its circular distance is exactly `n / 2 > d`.
pub proof fn lemma_exists_eligible(n: int, d: int, cur: int)
    requires
        2 <= n,
        0 <= d,
        2 * d + 2 <= n,
        0 <= cur < n,
    ensures
        eligible(n, d, cur, if cur + n / 2 < n { cur + n / 2 } else { cur + n / 2 - n }),
{
    let half = n / 2;
    let wit = if cur + half < n { cur + half } else { cur + half - n };
    assert(n == 2 * half || n == 2 * half + 1);
    assert(circ_dist(n, cur, wit) == half);
    assert(half > d);
}

/// When `2*d + 2 > n`, no hook at all is eligible from anywhere: every
/// circular distance is at most `n / 2 <= d`.
pub proof fn lemma_no_eligible(n: int, d: int, cur: int)
    requires
        1 <= n,
        0 <= d,
        2 * d + 2 > n,
    ensures
        forall|j: int| !#[trigger] eligible(n, d, cur, j),
{
    let half = n / 2;
    assert(n == 2 * half || n == 2 * half + 1);
    assert forall|j: int| !#[trigger] eligible(n, d, cur, j) by {
        if 0 <= j < n {
            assert(circ_dist(n, cur, j) <= half);
        }
    }
}

/// The exact score of the chord from hook `cur` to hook `j`: sum and count
/// of the grid values under its rasterized line.
pub open spec fn score_of(g: Seq<u8>, w: int, h: int, n: int, cur: int, j: int) -> (int, int) {
    let pts = line_seq(
        hook_x(w, h, n, cur), hook_y(w, h, n, cur),
        hook_x(w, h, n, j), hook_y(w, h, n, j),
    );
    (score_sum(g, w, h, pts), score_cnt(g, w, h, pts))
}

/// The hook the greedy step moves to from `cur`: the first candidate, in
/// index order, whose chord has the strictly greatest mean brightness on
/// the current grid.
pub open spec fn best_next(g: Seq<u8>, w: int, h: int, n: int, d: int, cur: int) -> int {
    let cs = cand_seq(n, d, cur);
    cs[first_max_idx(cs.map_values(|j: int| score_of(g, w, h, n, cur, j)))]
}

/// The state after `k` greedy steps from hook 0 on grid `g0`: the current
/// hook index and the decayed grid. Step `k` scores against the grid of step
/// `k - 1`, so every earlier choice influences all later ones.
pub open spec fn run_state(
    g0: Seq<u8>, w: int, h: int, n: int, d: int, num: int, den: int, k: nat,
) -> (int, Seq<u8>)
    decreases k,
{
    if k == 0 {
        (0, g0)
    } else {
        let prev = run_state(g0, w, h, n, d, num, den, (k - 1) as nat);
        let cur = prev.0;
        let nxt = best_next(prev.1, w, h, n, d, cur);
        let pts = line_seq(
            hook_x(w, h, n, cur), hook_y(w, h, n, cur),
            hook_x(w, h, n, nxt), hook_y(w, h, n, nxt),
        );
        (nxt, decay_seq(prev.1, w, h, pts, num, den))
    }
}

/// The chosen next hook is always an eligible candidate of the current one.
pub proof fn lemma_best_next_eligible(g: Seq<u8>, w: int, h: int, n: int, d: int, cur: int)
    requires
        2 <= n,
        0 <= d,
        2 * d + 2 <= n,
        0 <= cur < n,
    ensures
        eligible(n, d, cur, best_next(g, w, h, n, d, cur)),
{
    let cs = cand_seq(n, d, cur);
    let sv = cs.map_values(|j: int| score_of(g, w, h, n, cur, j));
    lemma_exists_eligible(n, d, cur);
    let wit = if cur + n / 2 < n { cur + n / 2 } else { cur + n / 2 - n };
    lemma_cands_nonempty(n, d, cur, n, wit);
    lemma_cands_elems(n, d, cur, n);
    assert forall|k: int| 0 <= k < sv.len() implies 0 <= (#[trigger] sv[k]).0 && 0 <= sv[k].1 by {
        crate::score::lemma_score_bounds(g, w, h, line_seq(
            hook_x(w, h, n, cur), hook_y(w, h, n, cur),
            hook_x(w, h, n, cs[k]), hook_y(w, h, n, cs[k]),
        ));
    }
    crate::score::lemma_first_max_props(sv);
}

/// Neighbour exclusion, over the whole run: after any number of steps the
/// current hook is a real hook index, and every transition the run takes
/// joins hooks whose circular distance exceeds the neighbour distance.
pub proof fn lemma_neighbour_exclusion(
    g0: Seq<u8>, w: int, h: int, n: int, d: int, num: int, den: int, k: nat,
)
    requires
        2 <= n,
        0 <= d,
        2 * d + 2 <= n,
    ensures
        0 <= run_state(g0, w, h, n, d, num, den, k).0 < n,
        k >= 1 ==> circ_dist(
            n,
            run_state(g0, w, h, n, d, num, den, (k - 1) as nat).0,
            run_state(g0, w, h, n, d, num, den, k).0,
        ) > d,
    decreases k,
{
    if k >= 1 {
        lemma_neighbour_exclusion(g0, w, h, n, d, num, den, (k - 1) as nat);
        let prev = run_state(g0, w, h, n, d, num, den, (k - 1) as nat);
        lemma_best_next_eligible(prev.1, w, h, n, d, prev.0);
    }
}

/// Circular index distance between hooks `i` and `j` on a ring of `n`.
pub fn circ_dist_hooks(n: usize, i: usize, j: usize) -> (r: usize)
    requires
        i < n,
        j < n,
    ensures
        r == circ_dist(n as int, i as int, j as int),
{
    let a = if i >= j { i - j } else { j - i };
    if a <= n - a {
        a
    } else {
        n - a
    }
}

/// Runs the greedy sequencer on an inverted brightness grid.
///
/// On success the result holds exactly `strings - 1` records; record `i` is
/// `(i, from, to)` where `from` is the hook after `i` steps (hook 0 at the
/// start) and `to` the hook after `i + 1` steps, exactly as `run_state`
/// lays them out; the grid is left in the decayed state of the last scored
/// step. An unusable configuration or an exhausted candidate set is
/// rejected up front with the grid untouched.
pub fn compute_string_order(img: &mut Grid, config: &Config) -> (r: Result<
    Vec<(i32, i32, i32)>,
    StringArtError,
>)
    requires
        old(img).wf(),
        2 <= old(img).width <= 1048576,
        2 <= old(img).height <= 1048576,
        config.hooks <= 65536,
        config.strings <= 2147483647,
        config.contrast_num <= 1_000_000_000,
        config.contrast_den <= 1_000_000_000,
    ensures
        final(img).wf(),
        final(img).width == old(img).width,
        final(img).height == old(img).height,
        !config.valid() ==> r == Result::<Vec<(i32, i32, i32)>, StringArtError>::Err(
            StringArtError::InvalidConfiguration,
        ) && final(img).data@ == old(img).data@,
        config.valid() && 2 * config.neighbour_dist + 2 > config.hooks ==> r == Result::<
            Vec<(i32, i32, i32)>,
            StringArtError,
        >::Err(StringArtError::CandidateExhaustion) && final(img).data@ == old(img).data@,
        config.valid() && 2 * config.neighbour_dist + 2 <= config.hooks ==> {
            let w = old(img).width as int;
            let h = old(img).height as int;
            let n = config.hooks as int;
            let d = config.neighbour_dist as int;
            let num = config.contrast_num as int;
            let den = config.contrast_den as int;
            let g0 = old(img).data@;
            match r {
                Ok(v) => {
                    &&& v@.len() == config.strings - 1
                    &&& forall|i: int| 0 <= i < v@.len() ==> {
                        &&& (#[trigger] v@[i]).0 == i
                        &&& v@[i].1 == run_state(g0, w, h, n, d, num, den, i as nat).0
                        &&& v@[i].2 == run_state(g0, w, h, n, d, num, den, (i + 1) as nat).0
                    }
                    &&& final(img).data@ == run_state(
                        g0, w, h, n, d, num, den, (config.strings - 1) as nat,
                    ).1
                },
                Err(_) => false,
            }
        },
{
    let n = config.hooks;
    let d = config.neighbour_dist;
    if !(n >= 2 && config.strings >= 1 && config.contrast_num >= 1 && config.contrast_den >= 1) {
        return Err(StringArtError::InvalidConfiguration);
    }
    if d > (n - 2) / 2 {
        proof {
            assert(2 * (d as int) + 2 > n as int);
        }
        return Err(StringArtError::CandidateExhaustion);
    }
    proof {
        assert(2 * (d as int) + 2 <= n as int);
    }
    let w = img.width;
    let h = img.height;
    let coords = generate_circle_coordinates(w as i32, h as i32, n);
    let ghost wi = w as int;
    let ghost hi = h as int;
    let ghost ni = n as int;
    let ghost di = d as int;
    let ghost numi = config.contrast_num as int;
    let ghost deni = config.contrast_den as int;
    let ghost g0 = img.data@;
    let steps = config.strings - 1;
    let mut result: Vec<(i32, i32, i32)> = Vec::new();
    let mut start_idx: usize = 0;
    let mut step: usize = 0;
    while step < steps
        invariant
            img.wf(),
            img.width == w,
            img.height == h,
            2 <= w <= 1048576,
            2 <= h <= 1048576,
            2 <= n <= 65536,
            0 <= d,
            2 * di + 2 <= ni,
            wi == w as int, hi == h as int, ni == n as int, di == d as int,
            numi == config.contrast_num as int,
            deni == config.contrast_den as int,
            1 <= config.contrast_num <= 1_000_000_000,
            1 <= config.contrast_den <= 1_000_000_000,
            steps <= 2147483646,
            step <= steps,
            start_idx < n,
            coords@.len() == n,
            forall|i: int| 0 <= i < ni ==> {
                &&& (#[trigger] coords@[i]).2 == i
                &&& coords@[i].0 == hook_x(wi, hi, ni, i)
                &&& coords@[i].1 == hook_y(wi, hi, ni, i)
                &&& 1 <= coords@[i].0 < wi
                &&& 1 <= coords@[i].1 < hi
            },
            start_idx as int == run_state(g0, wi, hi, ni, di, numi, deni, step as nat).0,
            img.data@ == run_state(g0, wi, hi, ni, di, numi, deni, step as nat).1,
            result@.len() == step,
            forall|i: int| 0 <= i < step ==> {
                &&& (#[trigger] result@[i]).0 == i
                &&& result@[i].1 == run_state(g0, wi, hi, ni, di, numi, deni, i as nat).0
                &&& result@[i].2 == run_state(g0, wi, hi, ni, di, numi, deni, (i + 1) as nat).0
            },
        decreases steps - step,
    {
        let ghost gcur = img.data@;
        // Build the candidate list, in hook index order.
        let mut other: Vec<(i32, i32, usize)> = Vec::new();
        let mut j: usize = 0;
        while j < n
            invariant
                j <= n,
                n <= 65536,
                start_idx < n,
                coords@.len() == n,
                ni == n as int, di == d as int,
                forall|i: int| 0 <= i < ni ==> {
                    &&& (#[trigger] coords@[i]).2 == i
                    &&& coords@[i].0 == hook_x(wi, hi, ni, i)
                    &&& coords@[i].1 == hook_y(wi, hi, ni, i)
                    &&& 1 <= coords@[i].0 < wi
                    &&& 1 <= coords@[i].1 < hi
                },
                other@.len() == cands_upto(ni, di, start_idx as int, j as int).len(),
                forall|idx: int| 0 <= idx < other@.len() ==> {
                    let c = cands_upto(ni, di, start_idx as int, j as int)[idx];
                    &&& 0 <= c < ni
                    &&& (#[trigger] other@[idx]) == coords@[c]
                },
            decreases n - j,
        {
            proof {
                lemma_cands_elems(ni, di, start_idx as int, j as int);
                lemma_cands_elems(ni, di, start_idx as int, j + 1 as int);
            }
            if circ_dist_hooks(n, start_idx, j) > d {
                other.push(coords[j]);
                proof {
                    assert(cands_upto(ni, di, start_idx as int, j + 1)
                        == cands_upto(ni, di, start_idx as int, j as int).push(j as int));
                }
            } else {
                proof {
                    assert(cands_upto(ni, di, start_idx as int, j + 1)
                        == cands_upto(ni, di, start_idx as int, j as int));
                }
            }
            j = j + 1;
        }
        let ghost cs = cand_seq(ni, di, start_idx as int);
        proof {
            lemma_exists_eligible(ni, di, start_idx as int);
            let wit = if start_idx as int + ni / 2 < ni {
                start_idx as int + ni / 2
            } else {
                start_idx as int + ni / 2 - ni
            };
            lemma_cands_nonempty(ni, di, start_idx as int, ni, wit);
            lemma_cands_elems(ni, di, start_idx as int, ni);
        }
        // Project out the candidate coordinates.
        let m = other.len();
        let mut other_coords: Vec<(i32, i32)> = Vec::new();
        let mut t: usize = 0;
        while t < m
            invariant
                t <= m,
                m == other@.len(),
                other_coords@.len() == t,
                forall|idx: int| 0 <= idx < t
                    ==> #[trigger] other_coords@[idx] == (other@[idx].0, other@[idx].1),
            decreases m - t,
        {
            let v = other[t];
            other_coords.push((v.0, v.1));
            t = t + 1;
        }
        let sp = coords[start_idx];
        let res = compute_line_vals(img, (sp.0, sp.1), &other_coords);
        let best = find_max_index(&res);
        let new_start = other[best];
        proof {
            // The scored list seen by the selector is exactly the spec's
            // candidate scores, so the selected hook is `best_next`.
            let mapped = cs.map_values(|c: int| score_of(gcur, wi, hi, ni, start_idx as int, c));
            assert forall|idx: int| 0 <= idx < cs.len()
                implies #[trigger] scores_view(res@)[idx] == mapped[idx] by {
                assert(other@[idx] == coords@[cs[idx]]);
                assert(other_coords@[idx] == (other@[idx].0, other@[idx].1));
                assert(res@[idx].1.sum == score_sum(gcur, wi, hi,
                    line_seq(sp.0 as int, sp.1 as int,
                        other_coords@[idx].0 as int, other_coords@[idx].1 as int)));
            }
            assert(scores_view(res@) =~= mapped);
            assert(new_start.2 as int == best_next(gcur, wi, hi, ni, di, start_idx as int));
            lemma_best_next_eligible(gcur, wi, hi, ni, di, start_idx as int);
        }
        let line = bresenham_line((sp.0, sp.1), (new_start.0, new_start.1));
        crate::grid::scale_pixels(img, &line, config.contrast_num, config.contrast_den);
        proof {
            let nxt = best_next(gcur, wi, hi, ni, di, start_idx as int);
            let pts = line_seq(
                hook_x(wi, hi, ni, start_idx as int), hook_y(wi, hi, ni, start_idx as int),
                hook_x(wi, hi, ni, nxt), hook_y(wi, hi, ni, nxt),
            );
            assert(line@.map_values(|p: (i32, i32)| (p.0 as int, p.1 as int)) == pts);
            assert(img.data@ == decay_seq(gcur, wi, hi, pts, numi, deni));
            assert(run_state(g0, wi, hi, ni, di, numi, deni, (step + 1) as nat)
                == (nxt, decay_seq(gcur, wi, hi, pts, numi, deni)));
        }
        result.push((step as i32, start_idx as i32, new_start.2 as i32));
        start_idx = new_start.2;
        step = step + 1;
    }
    Ok(result)
}

} // verus!
