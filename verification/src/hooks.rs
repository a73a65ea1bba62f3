use vstd::prelude::*;
use vstd::arithmetic::div_mod::{lemma_fundamental_div_mod, lemma_mod_division_less_than_divisor};

verus! {

// Hook placement. The hooks sit evenly spaced on the circle inscribed in the
// image: hook `i` of `n` at the angle of `i / n` turns, on the circle centred
// at `(w / 2, h / 2)` with radius `min(w, h) / 2 - 1`. The sine and cosine of
// a fraction of a turn are taken from an exact rational approximation
// (Bhaskara's): for `x` in the first half-turn, writing `u = a / n` for the
// turn fraction, `sin(2*pi*u) ~= 32*a*(n - 2*a) / (5*n*n - 8*a*(n - 2*a))`,
// which is exact at the quarter-turn points and within 0.0017 everywhere, so
// hook coordinates match the ideal circle to well under a pixel for ordinary
// image sizes. All arithmetic is integral, so placement is the same on every
// machine.

/// Numerator of the half-turn sine approximation at `a / n` of a turn,
/// for `0 <= 2*a <= n`.
pub open spec fn half_num(n: int, a: int) -> int {
    32 * a * (n - 2 * a)
}

/// Denominator of the half-turn sine approximation at `a / n` of a turn.
pub open spec fn half_den(n: int, a: int) -> int {
    5 * n * n - 8 * a * (n - 2 * a)
}

/// Numerator of sine at `a / n` of a full turn, `0 <= a < n`; the second
/// half-turn is the mirrored negative of the first.
pub open spec fn sin_num(n: int, a: int) -> int {
    if 2 * a <= n {
        half_num(n, a)
    } else {
        -half_num(n, n - a)
    }
}

/// Denominator of sine at `a / n` of a full turn.
pub open spec fn sin_den(n: int, a: int) -> int {
    if 2 * a <= n {
        half_den(n, a)
    } else {
        half_den(n, n - a)
    }
}

/// Numerator of cosine at `a / n` of a turn: sine shifted by a quarter turn
/// on the ring of `4 * n` quarter-steps.
pub open spec fn cos_num(n: int, a: int) -> int {
    sin_num(4 * n, (4 * a + n) % (4 * n))
}

/// Denominator of cosine at `a / n` of a turn.
pub open spec fn cos_den(n: int, a: int) -> int {
    sin_den(4 * n, (4 * a + n) % (4 * n))
}

/// `p / q` rounded half-up, for `q > 0`.
pub open spec fn round_div(p: int, q: int) -> int {
    (2 * p + q) / (2 * q)
}

/// The smaller of the two image dimensions.
pub open spec fn ring_min(w: int, h: int) -> int {
    if w <= h { w } else { h }
}

/// The x pixel coordinate of hook `i` of `n` on a `w * h` image:
/// `w/2 + (min(w,h)/2 - 1) * cos`, rounded half-up.
pub open spec fn hook_x(w: int, h: int, n: int, i: int) -> int {
    round_div(w * cos_den(n, i) + (ring_min(w, h) - 2) * cos_num(n, i), 2 * cos_den(n, i))
}

/// The y pixel coordinate of hook `i` of `n` on a `w * h` image:
/// `h/2 + (min(w,h)/2 - 1) * sin`, rounded half-up.
pub open spec fn hook_y(w: int, h: int, n: int, i: int) -> int {
    round_div(h * sin_den(n, i) + (ring_min(w, h) - 2) * sin_num(n, i), 2 * sin_den(n, i))
}

/// On the first half-turn the sine fraction is proper: the numerator sits
/// between zero and the denominator, and the denominator is tightly pinned.
proof fn lemma_half_bounds(n: int, a: int)
    requires
        1 <= n,
        0 <= 2 * a <= n,
    ensures
        0 <= half_num(n, a),
        half_num(n, a) <= half_den(n, a),
        4 * n * n <= half_den(n, a) <= 5 * n * n,
{
    assert(0 <= 32 * a * (n - 2 * a)) by (nonlinear_arith)
        requires 0 <= a, 2 * a <= n;
    assert(32 * a * (n - 2 * a) <= 5 * n * n - 8 * a * (n - 2 * a)) by (nonlinear_arith)
        requires 0 <= a, 2 * a <= n;
    assert(4 * n * n <= 5 * n * n - 8 * a * (n - 2 * a)) by (nonlinear_arith)
        requires 0 <= a, 2 * a <= n;
    assert(5 * n * n - 8 * a * (n - 2 * a) <= 5 * n * n) by (nonlinear_arith)
        requires 0 <= a, 2 * a <= n;
}

/// Bounds for the full-turn sine fraction.
proof fn lemma_sin_bounds(n: int, a: int)
    requires
        1 <= n,
        0 <= a < n,
    ensures
        -sin_den(n, a) <= sin_num(n, a) <= sin_den(n, a),
        4 * n * n <= sin_den(n, a) <= 5 * n * n,
{
    if 2 * a <= n {
        lemma_half_bounds(n, a);
    } else {
        lemma_half_bounds(n, n - a);
    }
}

/// Computes the sine fraction `(sin_num, sin_den)` at `a / n` of a turn.
fn sin_frac(n: u64, a: u64) -> (r: (i64, i64))
    requires
        1 <= n <= 262144,
        a < n,
    ensures
        r.0 == sin_num(n as int, a as int),
        r.1 == sin_den(n as int, a as int),
        -r.1 <= r.0 <= r.1,
        4 * (n as int) * (n as int) <= r.1 <= 5 * (n as int) * (n as int),
{
    let ni = n as i64;
    proof {
        lemma_sin_bounds(n as int, a as int);
        assert((ni as int) * (ni as int) <= 68719476736) by (nonlinear_arith)
            requires 0 <= ni <= 262144;
        assert(5 * (ni as int) * (ni as int) <= 343597383680) by (nonlinear_arith)
            requires 0 <= ni <= 262144;
    }
    if 2 * a <= n {
        let ai = a as i64;
        proof {
            assert(0 <= (ai as int) * ((ni as int) - 2 * (ai as int)) <= (ni as int) * (ni as int))
                by (nonlinear_arith)
                requires 0 <= ai, 2 * (ai as int) <= ni as int, ni >= 1;
        }
        let t = ai * (ni - 2 * ai);
        proof {
            assert(32 * (t as int) == 32 * (ai as int) * ((ni as int) - 2 * (ai as int))
                && 8 * (t as int) == 8 * (ai as int) * ((ni as int) - 2 * (ai as int)))
                by (nonlinear_arith)
                requires (t as int) == (ai as int) * ((ni as int) - 2 * (ai as int));
        }
        (32 * t, 5 * ni * ni - 8 * t)
    } else {
        let ai = (n - a) as i64;
        proof {
            assert(0 <= (ai as int) * ((ni as int) - 2 * (ai as int)) <= (ni as int) * (ni as int))
                by (nonlinear_arith)
                requires 0 <= ai, 2 * (ai as int) <= ni as int, ni >= 1;
        }
        let t = ai * (ni - 2 * ai);
        proof {
            assert(32 * (t as int) == 32 * (ai as int) * ((ni as int) - 2 * (ai as int))
                && 8 * (t as int) == 8 * (ai as int) * ((ni as int) - 2 * (ai as int)))
                by (nonlinear_arith)
                requires (t as int) == (ai as int) * ((ni as int) - 2 * (ai as int));
        }
        (-(32 * t), 5 * ni * ni - 8 * t)
    }
}

/// Computes `round_div(base * q + (m - 2) * p, 2 * q)`: one coordinate of a
/// hook, `base/2 + (m/2 - 1) * (p/q)` rounded half-up. The result always
/// lands strictly inside `[1, base - 1]`, within the circle's bounding box.
fn hook_coord(base: u64, m: u64, p: i64, q: i64) -> (r: i32)
    requires
        2 <= m <= base <= 1048576,
        1 <= q <= 343597383680,
        -q <= p <= q,
    ensures
        r == round_div(base * q + (m - 2) * p, 2 * q),
        1 <= r < base,
        base - m + 2 <= 2 * r <= base + m - 1,
{
    let bi = base as i64;
    let mi = m as i64;
    proof {
        assert(bi * q <= 1048576 * 343597383680) by (nonlinear_arith)
            requires 0 <= bi <= 1048576, 0 <= q <= 343597383680;
        assert((mi - 2) * p <= 1048576 * 343597383680 && (mi - 2) * p >= -(1048576 * 343597383680))
            by (nonlinear_arith)
            requires 0 <= mi - 2 <= 1048576, -343597383680 <= p <= 343597383680;
        assert(bi * q >= (mi - 2) * (-p)) by (nonlinear_arith)
            requires 2 <= mi <= bi, 1 <= q, -q <= p <= q;
        assert((mi - 2) * (-p) == -((mi - 2) * p)) by (nonlinear_arith);
    }
    let pnum = bi * q + (mi - 2) * p;
    let rnum = 2 * pnum + 2 * q;
    let rden = 4 * q;
    let x = rnum / rden;
    proof {
        let pn = pnum as int;
        let rn = rnum as int;
        let qi = q as int;
        let lo = bi as int - mi as int + 2;
        let hi = bi as int + mi as int - 2;
        // Position of the numerator between multiples of the denominator.
        assert(pn >= lo * qi && pn <= hi * qi) by (nonlinear_arith)
            requires
                pn == (bi as int) * qi + ((mi - 2) as int) * (p as int),
                lo == bi as int - mi as int + 2,
                hi == bi as int + mi as int - 2,
                2 <= mi <= bi, 1 <= qi, -qi <= p <= qi;
        // Floor division bounds from the fundamental identity.
        lemma_fundamental_div_mod(rn, 4 * qi);
        lemma_mod_division_less_than_divisor(rn, 4 * qi);
        let xx = rn / (4 * qi);
        assert(4 * qi * xx <= rn && 4 * qi * xx > rn - 4 * qi);
        assert(2 * xx >= lo) by (nonlinear_arith)
            requires
                4 * qi * xx > rn - 4 * qi,
                rn == 2 * pn + 2 * qi,
                pn >= lo * qi,
                1 <= qi;
        assert(2 * xx <= hi + 1) by (nonlinear_arith)
            requires
                4 * qi * xx <= rn,
                rn == 2 * pn + 2 * qi,
                pn <= hi * qi,
                1 <= qi;
        assert(x as int == xx);
        assert(xx >= 1);
        assert(2 * xx <= 2 * (bi as int) - 1);
        assert(xx <= bi - 1);
        assert(round_div(pn, 2 * qi) == rn / (4 * qi)) by {
            assert(2 * pn + 2 * qi == rn);
            assert(2 * (2 * qi) == 4 * qi);
        }
    }
    x as i32
}

/// Produces the `n` hooks for a `w * h` image, ordered by index `0 .. n-1`:
/// exactly `n` of them, the `i`-th carrying index `i` and sitting at
/// `(hook_x(w, h, n, i), hook_y(w, h, n, i))`, strictly inside the image and
/// within the bounding box of the inscribed circle.
pub fn generate_circle_coordinates(image_width: i32, image_height: i32, n: usize) -> (r: Vec<(i32, i32, usize)>)
    requires
        2 <= image_width <= 1048576,
        2 <= image_height <= 1048576,
        1 <= n <= 65536,
    ensures
        r@.len() == n,
        forall|i: int| 0 <= i < n ==> {
            let w = image_width as int;
            let h = image_height as int;
            let m = ring_min(w, h);
            &&& (#[trigger] r@[i]).2 == i
            &&& r@[i].0 == hook_x(w, h, n as int, i)
            &&& r@[i].1 == hook_y(w, h, n as int, i)
            &&& 1 <= r@[i].0 < w
            &&& 1 <= r@[i].1 < h
            &&& w - m + 2 <= 2 * r@[i].0 <= w + m - 1
            &&& h - m + 2 <= 2 * r@[i].1 <= h + m - 1
        },
{
    let w64 = image_width as u64;
    let h64 = image_height as u64;
    let m64: u64 = if w64 <= h64 { w64 } else { h64 };
    let n64 = n as u64;
    let mut r: Vec<(i32, i32, usize)> = Vec::new();
    let mut i: usize = 0;
    while i < n
        invariant
            2 <= image_width <= 1048576,
            2 <= image_height <= 1048576,
            1 <= n <= 65536,
            w64 == image_width as u64,
            h64 == image_height as u64,
            n64 == n as u64,
            m64 == ring_min(image_width as int, image_height as int),
            i <= n,
            r@.len() == i,
            forall|k: int| 0 <= k < i ==> {
                let w = image_width as int;
                let h = image_height as int;
                let m = ring_min(w, h);
                &&& (#[trigger] r@[k]).2 == k
                &&& r@[k].0 == hook_x(w, h, n as int, k)
                &&& r@[k].1 == hook_y(w, h, n as int, k)
                &&& 1 <= r@[k].0 < w
                &&& 1 <= r@[k].1 < h
                &&& w - m + 2 <= 2 * r@[k].0 <= w + m - 1
                &&& h - m + 2 <= 2 * r@[k].1 <= h + m - 1
            },
        decreases n - i,
    {
        let (ps, qs) = sin_frac(n64, i as u64);
        let m4 = 4 * n64;
        let b = (4 * (i as u64) + n64) % m4;
        proof {
            lemma_mod_division_less_than_divisor((4 * (i as int) + n as int) as int, 4 * n as int);
        }
        let (pc, qc) = sin_frac(m4, b);
        proof {
            assert(4 * (m4 as int) * (m4 as int) >= 4) by (nonlinear_arith)
                requires 1 <= m4;
            assert(5 * (m4 as int) * (m4 as int) <= 343597383680) by (nonlinear_arith)
                requires m4 <= 262144;
            assert(5 * (n64 as int) * (n64 as int) <= 343597383680) by (nonlinear_arith)
                requires n64 <= 65536;
            assert(4 * (n64 as int) * (n64 as int) >= 4) by (nonlinear_arith)
                requires 1 <= n64;
        }
        let x = hook_coord(w64, m64, pc, qc);
        let y = hook_coord(h64, m64, ps, qs);
        r.push((x, y, i));
        i = i + 1;
    }
    r
}

} // verus!
