//! What the label search guarantees, proved over its specification functions:
//! the labels it returns are well formed (and contain the data when loose), it is
//! a function of its inputs, its pruning never changes the winner, and the winner
//! is the first candidate of the walk with the highest score.
use vstd::prelude::*;
use crate::labeller::{
    Labeller, Label, StepFrame, zero_label, common_den, num_lo, num_hi, lemma_common, below, opow, two_minus_q, to_fixed, coverage_q, coverage_max_q, density_q, density_max_q, density_max_spec, coverage_spec,
    coverage_max_spec, density_spec, max_int, min_int, prunes, lemma_opow_positive, tick_limit, SCALE,
    MAX_REPEAT, EXPONENT_SPAN,
};
use crate::ratio::{Ratio, fits, lemma_floor_div_fits, om};

verus! {

/// A label that the search may return: the zero label, or one with a positive step
/// and `min <= max`, which for a loose labeller also contains `[dmin, dmax]`.
pub open spec fn valid_result(l: Label, dmin: Ratio, dmax: Ratio, loose: bool) -> bool {
    l == zero_label() || {
        &&& l.step.num > 0
        &&& l.step.den > 0
        &&& l.min.den > 0
        &&& l.max.den > 0
        &&& l.min.le(l.max)
        &&& loose ==> l.min.le(dmin) && dmax.le(l.max)
    }
}

impl Labeller {
    proof fn lemma_frame_good(&self, dmin: Ratio, dmax: Ratio, i: int, j: int, k: int, z: int)
        requires
            self.wf(),
            dmin.wf(),
            dmax.wf(),
            below(dmin, dmax),
            1 <= i <= self.q@.len(),
            1 <= j,
            2 <= k,
        ensures
            self.frame_spec(dmin, dmax, i, j, k, z) matches Some(f) ==> {
                &&& f.good()
                &&& f.unit == f.gn * common_den(dmin, dmax)
                &&& f.span == (k - 1) * (j * f.unit)
                &&& f.lo == num_lo(dmin, dmax) * f.gd
                &&& f.hi == num_hi(dmin, dmax) * f.gd
                &&& coverage_max_spec(f.range as int, f.span as int) == Some(f.cm as int)
                &&& f.cm <= SCALE
            },
    {
        let q = self.q@[i - 1];
        assert(q.positive());
        lemma_opow_positive(self.base.num as int, vstd::math::abs(z));
        lemma_opow_positive(self.base.den as int, vstd::math::abs(z));
        if let Some(f) = self.frame_spec(dmin, dmax, i, j, k, z) {
            let pn = opow(self.base.num as int, vstd::math::abs(z))->0;
            let pd = opow(self.base.den as int, vstd::math::abs(z))->0;
            lemma_common(dmin, dmax);
            let dd = common_den(dmin, dmax);
            let a0 = num_lo(dmin, dmax);
            let b0 = num_hi(dmin, dmax);
            assert(f.gn > 0 && f.gd > 0) by (nonlinear_arith)
                requires
                    (z >= 0 ==> f.gn == q.num * pn && f.gd == q.den * pd),
                    (z < 0 ==> f.gd == q.den * pn && f.gn == q.num * pd),
                    q.num > 0,
                    q.den > 0,
                    pn > 0,
                    pd > 0,
            ;
            assert(f.unit > 0 && f.step > 0 && f.span > 0 && f.lo < f.hi) by (nonlinear_arith)
                requires
                    dd > 0,
                    f.unit == f.gn * dd,
                    f.gn > 0,
                    f.step == j * f.unit,
                    j >= 1,
                    f.span == (k - 1) * f.step,
                    k >= 2,
                    f.lo == a0 * f.gd,
                    f.hi == b0 * f.gd,
                    f.gd > 0,
                    a0 < b0,
            ;
            let r = f.range as int;
            let sp = f.span as int;
            if sp > r {
                let r2 = r * r;
                let e = sp - r;
                let t = SCALE * (r2 - 25 * (e * e));
                assert(r2 > 0) by (nonlinear_arith)
                    requires
                        r2 == r * r,
                        r > 0,
                ;
                assert(coverage_max_q(r, sp) == Some((r2 - 25 * (e * e), r2)));
                assert(coverage_max_spec(r, sp) == Some(t / r2));
                lemma_floor_div_fits(t, r2);
                assert(t * 1 <= SCALE * r2) by (nonlinear_arith)
                    requires
                        t == SCALE * (r2 - 25 * (e * e)),
                ;
                lemma_floor_le(t, r2, SCALE as int, 1);
            }
        }
    }

    proof fn lemma_cand_valid(&self, dmin: Ratio, dmax: Ratio, m: int, i: int, j: int, k: int, z: int, s: int)
        requires
            self.wf(),
            dmin.wf(),
            dmax.wf(),
            below(dmin, dmax),
            1 <= i <= self.q@.len(),
            1 <= j,
            2 <= k,
            self.frame_spec(dmin, dmax, i, j, k, z) is Some,
        ensures
            self.cand_spec(m, i, j, k, self.frame_spec(dmin, dmax, i, j, k, z)->0, s) matches Some(c) ==> {
                &&& valid_result(c.label, dmin, dmax, false)
                &&& c.label != zero_label()
                &&& c.covers ==> c.label.min.le(dmin) && dmax.le(c.label.max)
            },
    {
        self.lemma_frame_good(dmin, dmax, i, j, k, z);
        let f = self.frame_spec(dmin, dmax, i, j, k, z)->0;
        if let Some(c) = self.cand_spec(m, i, j, k, f, s) {
            let x = s * f.gn;
            let y = (s + (k - 1) * j) * f.gn;
            let st = j * f.gn;
            assert(c.label.min.num == x && c.label.max.num == y && c.label.step.num == st);
            assert(c.label.min.den == f.gd && c.label.max.den == f.gd && c.label.step.den == f.gd);
            assert(st > 0) by (nonlinear_arith)
                requires
                    st == j * f.gn,
                    j >= 1,
                    f.gn > 0,
            ;
            assert(x * f.gd <= y * f.gd) by (nonlinear_arith)
                requires
                    x == s * f.gn,
                    y == (s + (k - 1) * j) * f.gn,
                    k >= 2,
                    j >= 1,
                    f.gn > 0,
                    f.gd > 0,
            ;
            if c.covers {
                lemma_common(dmin, dmax);
                let dd = common_den(dmin, dmax);
                let a0 = num_lo(dmin, dmax);
                let b0 = num_hi(dmin, dmax);
                assert(s * f.unit <= f.lo);
                assert(s * f.unit + f.span >= f.hi);
                assert(x * dd <= a0 * f.gd) by (nonlinear_arith)
                    requires
                        s * f.unit <= f.lo,
                        f.unit == f.gn * dd,
                        f.lo == a0 * f.gd,
                        x == s * f.gn,
                ;
                assert((x * dmin.den) * dd <= (dmin.num * f.gd) * dd) by (nonlinear_arith)
                    requires
                        x * dd <= a0 * f.gd,
                        a0 * dmin.den == dmin.num * dd,
                        dmin.den > 0,
                ;
                assert(x * dmin.den <= dmin.num * f.gd) by (nonlinear_arith)
                    requires
                        (x * dmin.den) * dd <= (dmin.num * f.gd) * dd,
                        dd > 0,
                ;
                let t = s + (k - 1) * j;
                assert(s * f.unit + f.span == t * f.unit) by (nonlinear_arith)
                    requires
                        f.span == (k - 1) * (j * f.unit),
                        t == s + (k - 1) * j,
                ;
                assert(t * f.unit == y * dd) by (nonlinear_arith)
                    requires
                        f.unit == f.gn * dd,
                        y == t * f.gn,
                ;
                assert((dmax.num * f.gd) * dd <= (y * dmax.den) * dd) by (nonlinear_arith)
                    requires
                        y * dd >= b0 * f.gd,
                        b0 * dmax.den == dmax.num * dd,
                        dmax.den > 0,
                ;
                assert(dmax.num * f.gd <= y * dmax.den) by (nonlinear_arith)
                    requires
                        (dmax.num * f.gd) * dd <= (y * dmax.den) * dd,
                        dd > 0,
                ;
            }
        }
    }

    proof fn lemma_fold_starts_valid(&self, dmin: Ratio, dmax: Ratio, m: int, i: int, j: int, k: int, z: int, best: (int, Label), s: int)
        requires
            self.wf(),
            dmin.wf(),
            dmax.wf(),
            below(dmin, dmax),
            1 <= i <= self.q@.len(),
            1 <= j,
            2 <= k,
            self.frame_spec(dmin, dmax, i, j, k, z) is Some,
            valid_result(best.1, dmin, dmax, self.loose),
        ensures
            valid_result(
                self.fold_starts(m, i, j, k, self.frame_spec(dmin, dmax, i, j, k, z)->0, best, s).1,
                dmin,
                dmax,
                self.loose,
            ),
        decreases self.frame_spec(dmin, dmax, i, j, k, z)->0.last + 1 - s,
    {
        let f = self.frame_spec(dmin, dmax, i, j, k, z)->0;
        if s <= f.last {
            self.lemma_cand_valid(dmin, dmax, m, i, j, k, z, s);
            self.lemma_fold_starts_valid(dmin, dmax, m, i, j, k, z, self.improve(best, self.cand_spec(m, i, j, k, f, s)), s + 1);
        }
    }

    proof fn lemma_fold_z_valid(
        &self,
        dmin: Ratio,
        dmax: Ratio,
        m: int,
        i: int,
        j: int,
        k: int,
        sm: Option<int>,
        dm: Option<int>,
        best: (int, Label),
        z: int,
        left: nat,
    )
        requires
            self.wf(),
            dmin.wf(),
            dmax.wf(),
            below(dmin, dmax),
            1 <= i <= self.q@.len(),
            1 <= j,
            2 <= k,
            valid_result(best.1, dmin, dmax, self.loose),
        ensures
            valid_result(self.fold_z(dmin, dmax, m, i, j, k, sm, dm, best, z, left).1, dmin, dmax, self.loose),
        decreases left,
    {
        if left > 0 {
            if let Some(f) = self.frame_spec(dmin, dmax, i, j, k, z) {
                self.lemma_fold_starts_valid(dmin, dmax, m, i, j, k, z, best, f.first as int);
                self.lemma_fold_z_valid(dmin, dmax, m, i, j, k, sm, dm, self.fold_starts(m, i, j, k, f, best, f.first as int), z + 1, (left - 1) as nat);
            }
        }
    }

    proof fn lemma_fold_k_valid(&self, dmin: Ratio, dmax: Ratio, m: int, i: int, j: int, sm: Option<int>, best: (int, Label), k: int, left: nat)
        requires
            self.wf(),
            dmin.wf(),
            dmax.wf(),
            below(dmin, dmax),
            1 <= i <= self.q@.len(),
            1 <= j,
            2 <= k,
            valid_result(best.1, dmin, dmax, self.loose),
        ensures
            valid_result(self.fold_k(dmin, dmax, m, i, j, sm, best, k, left).1, dmin, dmax, self.loose),
        decreases left,
    {
        if left > 0 {
            let dm = density_max_spec(k, m);
            let next = match self.z_start(dmin, dmax, i, j, k) {
                Some(z0) => self.fold_z(dmin, dmax, m, i, j, k, sm, dm, best, z0, EXPONENT_SPAN as nat),
                None => best,
            };
            if let Some(z0) = self.z_start(dmin, dmax, i, j, k) {
                self.lemma_fold_z_valid(dmin, dmax, m, i, j, k, sm, dm, best, z0, EXPONENT_SPAN as nat);
            }
            self.lemma_fold_k_valid(dmin, dmax, m, i, j, sm, next, k + 1, (left - 1) as nat);
        }
    }

    proof fn lemma_fold_i_valid(&self, dmin: Ratio, dmax: Ratio, m: int, j: int, best: (int, Label), i: int)
        requires
            self.wf(),
            dmin.wf(),
            dmax.wf(),
            below(dmin, dmax),
            1 <= j,
            valid_result(best.1, dmin, dmax, self.loose),
        ensures
            valid_result(self.fold_i(dmin, dmax, m, j, best, i).0.1, dmin, dmax, self.loose),
        decreases self.q@.len() + 1 - i,
    {
        if 1 <= i <= self.q@.len() {
            let sm = self.simplicity_spec(i, j, 1);
            self.lemma_fold_k_valid(dmin, dmax, m, i, j, sm, best, 2, (tick_limit(m) - 1) as nat);
            self.lemma_fold_i_valid(dmin, dmax, m, j, self.fold_k(dmin, dmax, m, i, j, sm, best, 2, (tick_limit(m) - 1) as nat), i + 1);
        }
    }

    proof fn lemma_fold_j_valid(&self, dmin: Ratio, dmax: Ratio, m: int, best: (int, Label), j: int, left: nat)
        requires
            self.wf(),
            dmin.wf(),
            dmax.wf(),
            below(dmin, dmax),
            1 <= j,
            valid_result(best.1, dmin, dmax, self.loose),
        ensures
            valid_result(self.fold_j(dmin, dmax, m, best, j, left).1, dmin, dmax, self.loose),
        decreases left,
    {
        if left > 0 {
            self.lemma_fold_i_valid(dmin, dmax, m, j, best, 1);
            let (next, stop) = self.fold_i(dmin, dmax, m, j, best, 1);
            self.lemma_fold_j_valid(dmin, dmax, m, next, j + 1, (left - 1) as nat);
        }
    }

    /// Every label the search returns, other than the zero label that says no
    /// candidate was found, has a positive step and `min <= max`; for a loose
    /// labeller it also contains the data range: `min <= dmin` and `max >= dmax`.
    pub proof fn lemma_search_valid(&self, dmin: Ratio, dmax: Ratio, m: int)
        requires
            self.wf(),
            dmin.wf(),
            dmax.wf(),
            below(dmin, dmax),
            m >= 2,
        ensures
            valid_result(self.search_spec(dmin, dmax, m), dmin, dmax, self.loose),
    {
        self.lemma_fold_j_valid(dmin, dmax, m, (self.floor_score(), zero_label()), 1, MAX_REPEAT as nat);
    }

    /// The search is a function of the labeller and of its arguments: equal
    /// labellers given equal arguments return equal labels, however often asked.
    pub proof fn lemma_search_deterministic(a: &Labeller, b: &Labeller, dmin: Ratio, dmax: Ratio, m: int)
        requires
            *a == *b,
        ensures
            a.search_spec(dmin, dmax, m) == b.search_spec(dmin, dmax, m),
    {
    }
}


/// `a / b <= c / d` as floors, from the same order of the exact quotients.
proof fn lemma_floor_le(a: int, b: int, c: int, d: int)
    requires
        b > 0,
        d > 0,
        a * d <= c * b,
    ensures
        a / b <= c / d,
{
    let q = a / b;
    vstd::arithmetic::div_mod::lemma_fundamental_div_mod(a, b);
    vstd::arithmetic::div_mod::lemma_fundamental_div_mod(c, d);
    vstd::arithmetic::div_mod::lemma_mod_bound(a, b);
    vstd::arithmetic::div_mod::lemma_mod_bound(c, d);
    assert(q * b <= a);
    assert(q * d * b <= c * b) by (nonlinear_arith)
        requires
            q * b <= a,
            a * d <= c * b,
            d > 0,
    ;
    assert(q * d <= c) by (nonlinear_arith)
        requires
            q * d * b <= c * b,
            b > 0,
    ;
    assert(q <= c / d) by (nonlinear_arith)
        requires
            q * d <= c,
            c == d * (c / d) + c % d,
            0 <= c % d < d,
            d > 0,
    ;
}

/// `2 - x / y`, floored, is at most one when `x >= y`.
proof fn lemma_two_minus_at_most_one(x: int, y: int)
    requires
        0 < y <= x,
    ensures
        to_fixed(two_minus_q(Some(x), Some(y))) matches Some(v) ==> v <= SCALE,
{
    if let Some(v) = to_fixed(two_minus_q(Some(x), Some(y))) {
        let n = SCALE * (2 * y - x);
        assert(n * 1 <= SCALE * y) by (nonlinear_arith)
            requires
                n == SCALE * (2 * y - x),
                0 < y <= x,
        ;
        lemma_floor_le(n, y, SCALE as int, 1);
    }
}

/// Density never exceeds its bound for the same `k` and `m`.
proof fn lemma_density_within_bound(k: int, m: int, dmin: int, dmax: int, lmin: int, lmax: int)
    requires
        2 <= k,
        2 <= m,
        dmin < dmax,
        lmin < lmax,
    ensures
        density_spec(k, m, dmin, dmax, lmin, lmax) matches Some(d) ==> density_max_spec(k, m) matches Some(dm)
            ==> d <= dm,
{
    if let Some(d) = density_spec(k, m, dmin, dmax, lmin, lmax) {
        if let Some(dm) = density_max_spec(k, m) {
            let e = max_int(lmax, dmax) - min_int(lmin, dmin);
            let l = lmax - lmin;
            let x = (k - 1) * e;
            let y = (m - 1) * l;
            assert(e >= l && l > 0);
            assert(x > 0 && y > 0) by (nonlinear_arith)
                requires
                    x == (k - 1) * e,
                    y == (m - 1) * l,
                    k >= 2,
                    m >= 2,
                    e >= l,
                    l > 0,
            ;
            if k >= m {
                assert(x >= y) by (nonlinear_arith)
                    requires
                        x == (k - 1) * e,
                        y == (m - 1) * l,
                        k >= m,
                        m >= 2,
                        e >= l,
                        l > 0,
                ;
                let n1 = SCALE * (2 * y - x);
                let n2 = SCALE * (2 * (m - 1) - (k - 1));
                assert(n1 * (m - 1) <= n2 * y) by (nonlinear_arith)
                    requires
                        n1 == SCALE * (2 * y - x),
                        n2 == SCALE * (2 * (m - 1) - (k - 1)),
                        y == (m - 1) * l,
                        x == (k - 1) * e,
                        e >= l,
                        k >= 2,
                        m >= 2,
                ;
                lemma_floor_le(n1, y, n2, m - 1);
            } else {
                if x >= y {
                    lemma_two_minus_at_most_one(x, y);
                } else {
                    lemma_two_minus_at_most_one(y, x);
                }
            }
        }
    }
}

/// Coverage never exceeds the coverage bound of a label range of the same length.
proof fn lemma_coverage_within_bound(dmin: int, dmax: int, lmin: int, lmax: int)
    requires
        dmin < dmax,
        lmin < lmax,
    ensures
        coverage_spec(dmin, dmax, lmin, lmax) matches Some(c) ==> coverage_max_spec(dmax - dmin, lmax - lmin) matches Some(
            cm,
        ) ==> c <= cm,
{
    if let Some(c) = coverage_spec(dmin, dmax, lmin, lmax) {
        if let Some(cm) = coverage_max_spec(dmax - dmin, lmax - lmin) {
            let a = dmax - lmax;
            let b = dmin - lmin;
            let r = dmax - dmin;
            let r2 = r * r;
            assert(r2 > 0) by (nonlinear_arith)
                requires
                    r2 == r * r,
                    r > 0,
            ;
            let n1 = SCALE * (r2 - 50 * (a * a + b * b));
            assert(coverage_q(dmin, dmax, lmin, lmax) == Some((r2 - 50 * (a * a + b * b), r2)));
            assert(c == n1 / r2);
            if lmax - lmin > r {
                let e = (lmax - lmin) - r;
                let n2 = SCALE * (r2 - 25 * (e * e));
                assert(coverage_max_q(r, lmax - lmin) == Some((r2 - 25 * (e * e), r2)));
                assert(cm == n2 / r2);
                assert(e == b - a);
                assert(n1 <= n2) by (nonlinear_arith)
                    requires
                        n1 == SCALE * (r2 - 50 * (a * a + b * b)),
                        n2 == SCALE * (r2 - 25 * (e * e)),
                        e == b - a,
                ;
                assert(n1 * r2 <= n2 * r2) by (nonlinear_arith)
                    requires
                        n1 <= n2,
                        r2 > 0,
                ;
                lemma_floor_le(n1, r2, n2, r2);
            } else {
                assert(coverage_max_q(r, lmax - lmin) == Some((1int, 1int)));
                assert(cm == (SCALE * 1) / 1);
                assert(n1 * 1 <= SCALE * r2) by (nonlinear_arith)
                    requires
                        n1 == SCALE * (r2 - 50 * (a * a + b * b)),
                ;
                lemma_floor_le(n1, r2, SCALE as int, 1);
            }
        }
    }
}

proof fn lemma_scaled_le(w: int, a: int, b: int)
    requires
        w >= 0,
        a <= b,
    ensures
        w * a <= w * b,
{
    assert(w * a <= w * b) by (nonlinear_arith)
        requires
            w >= 0,
            a <= b,
    ;
}

impl Labeller {
    /// Simplicity never exceeds its bound, the simplicity with zero as a tick.
    proof fn lemma_simplicity_within_bound(&self, i: int, j: int, v: int)
        requires
            self.wf(),
            0 <= v <= 1,
        ensures
            self.simplicity_spec(i, j, v) matches Some(s) ==> self.simplicity_spec(i, j, 1) matches Some(sm) ==> s <= sm,
    {
        let n = self.q@.len() as int;
        if n > 1 {
            assert((1 + v - j) * (n - 1) <= (2 - j) * (n - 1)) by (nonlinear_arith)
                requires
                    v <= 1,
                    n > 1,
            ;
        }
    }

    /// With weights that are not negative, every candidate of a family scores at
    /// most the bound that the search tests before it enumerates that family:
    /// the weighted sum of the simplicity bound of its multiplier and repeat, the
    /// coverage bound of its label length, the density bound of its tick count,
    /// and full legibility. This is what makes each prune leave out only
    /// candidates that could not replace the best one.
    pub proof fn lemma_candidate_within_bound(&self, dmin: Ratio, dmax: Ratio, m: int, i: int, j: int, k: int, z: int, s: int)
        requires
            self.wf(),
            dmin.wf(),
            dmax.wf(),
            below(dmin, dmax),
            1 <= i <= self.q@.len(),
            1 <= j,
            2 <= k,
            2 <= m,
            self.weights_nonneg(),
            self.frame_spec(dmin, dmax, i, j, k, z) is Some,
            self.simplicity_spec(i, j, 1) is Some,
            density_max_spec(k, m) is Some,
        ensures
            ({
                let f = self.frame_spec(dmin, dmax, i, j, k, z)->0;
                self.cand_spec(m, i, j, k, f, s) matches Some(c) ==> c.score <= self.cap(
                    self.simplicity_spec(i, j, 1)->0,
                    f.cm as int,
                    density_max_spec(k, m)->0,
                )
            }),
    {
        self.lemma_frame_good(dmin, dmax, i, j, k, z);
        let f = self.frame_spec(dmin, dmax, i, j, k, z)->0;
        if let Some(c) = self.cand_spec(m, i, j, k, f, s) {
            {
                let lo = s * f.unit;
                let hi = lo + f.span;
                let off = (s % j) * f.gn * self.eps.den;
                let tol = self.eps.num * f.gd;
                let v = if off < tol && lo <= 0 && hi >= 0 { 1int } else { 0int };
                let sv = self.simplicity_spec(i, j, v)->0;
                let cv = coverage_spec(f.lo as int, f.hi as int, lo, hi)->0;
                let dv = density_spec(k, m, f.lo as int, f.hi as int, lo, hi)->0;
                assert(c.score == self.cap(sv, cv, dv));
                let sm = self.simplicity_spec(i, j, 1)->0;
                let dm = density_max_spec(k, m)->0;
                self.lemma_simplicity_within_bound(i, j, v);
                lemma_coverage_within_bound(f.lo as int, f.hi as int, lo, hi);
                assert(hi - lo == f.span);
                assert(f.cm as int == coverage_max_spec(f.range as int, f.span as int)->0);
                lemma_density_within_bound(k, m, f.lo as int, f.hi as int, lo, hi);
                assert(self.w@[0] >= 0 && self.w@[1] >= 0 && self.w@[2] >= 0);
                self.lemma_cap_mono(sv, cv, dv, sm, f.cm as int, dm);
            }
        }
    }
}


/// The density bound exists for the tick counts tried and grows no larger with `k`.
proof fn lemma_density_max_facts(k: int, m: int)
    requires
        2 <= k <= tick_limit(i32::MAX as int) + 1,
        2 <= m <= i32::MAX,
    ensures
        density_max_spec(k, m) is Some,
        density_max_spec(k + 1, m) is Some,
        density_max_spec(k, m)->0 <= SCALE,
        density_max_spec(k + 1, m)->0 <= density_max_spec(k, m)->0,
{
    lemma_density_max_some(k, m);
    lemma_density_max_some(k + 1, m);
    if k >= m {
        let n1 = SCALE * (2 * (m - 1) - (k - 1));
        let n2 = SCALE * (2 * (m - 1) - k);
        assert(n1 * 1 <= SCALE * (m - 1)) by (nonlinear_arith)
            requires
                n1 == SCALE * (2 * (m - 1) - (k - 1)),
                k >= m,
        ;
        lemma_floor_le(n1, m - 1, SCALE as int, 1);
        assert(n2 * (m - 1) <= n1 * (m - 1)) by (nonlinear_arith)
            requires
                n1 == SCALE * (2 * (m - 1) - (k - 1)),
                n2 == SCALE * (2 * (m - 1) - k),
                m >= 2,
        ;
        lemma_floor_le(n2, m - 1, n1, m - 1);
    } else if k + 1 >= m {
        let n2 = SCALE * (2 * (m - 1) - k);
        assert(n2 * 1 <= SCALE * (m - 1)) by (nonlinear_arith)
            requires
                n2 == SCALE * (2 * (m - 1) - k),
                k + 1 >= m,
        ;
        lemma_floor_le(n2, m - 1, SCALE as int, 1);
    }
}

proof fn lemma_density_max_some(k: int, m: int)
    requires
        2 <= k <= tick_limit(i32::MAX as int) + 2,
        2 <= m <= i32::MAX,
    ensures
        density_max_spec(k, m) is Some,
{
    if k >= m {
        let t = 2 * (m - 1) - (k - 1);
        assert(fits(SCALE * t)) by (nonlinear_arith)
            requires
                t == 2 * (m - 1) - (k - 1),
                2 <= k <= 9_000_000_000,
                2 <= m <= i32::MAX,
        ;
    }
}

impl Labeller {
    /// The simplicity bound exists for the multipliers and repeats tried.
    proof fn lemma_simplicity_max_some(&self, i: int, j: int)
        requires
            self.wf(),
            1 <= i,
            i <= self.q@.len() || i == 1,
            1 <= j <= 1000,
        ensures
            self.simplicity_spec(i, j, 1) is Some,
    {
        let n = self.q@.len() as int;
        if n > 1 {
            assert(fits((2 - j) * (n - 1))) by (nonlinear_arith)
                requires
                    1 <= j <= 1000,
                    1 < n <= 0x1_0000_0000_0000_0000,
            ;
            assert(fits((2 - j) * (n - 1) - i)) by (nonlinear_arith)
                requires
                    1 <= j <= 1000,
                    1 <= i <= n,
                    1 < n <= 0x1_0000_0000_0000_0000,
            ;
        }
    }

    /// The simplicity bound grows no larger along the search order: to the next
    /// multiplier, and from the last multiplier to the first of the next repeat.
    proof fn lemma_simplicity_max_order(&self, i: int, j: int)
        requires
            self.wf(),
            1 <= i,
            i <= self.q@.len() || i == 1,
            1 <= j <= 999,
        ensures
            i < self.q@.len() ==> self.simplicity_spec(i + 1, j, 1)->0 < self.simplicity_spec(i, j, 1)->0,
            self.simplicity_spec(1, j + 1, 1)->0 <= self.simplicity_spec(i, j, 1)->0,
    {
        let n = self.q@.len() as int;
        self.lemma_simplicity_max_some(i, j);
        self.lemma_simplicity_max_some(1, j + 1);
        if i < n {
            self.lemma_simplicity_max_some(i + 1, j);
        }
        if n > 1 {
            assert((2 - (j + 1)) * (n - 1) - 1 <= (2 - j) * (n - 1) - i) by (nonlinear_arith)
                requires
                    i <= n,
                    n > 1,
            ;
        }
    }

    proof fn lemma_cap_mono(&self, s1: int, c1: int, d1: int, s2: int, c2: int, d2: int)
        requires
            self.wf(),
            self.weights_nonneg(),
            s1 <= s2,
            c1 <= c2,
            d1 <= d2,
        ensures
            self.cap(s1, c1, d1) <= self.cap(s2, c2, d2),
    {
        assert(self.w@[0] >= 0 && self.w@[1] >= 0 && self.w@[2] >= 0);
        lemma_scaled_le(self.w@[0] * SCALE, s1, s2);
        lemma_scaled_le(self.w@[1] as int, c1, c2);
        lemma_scaled_le(self.w@[2] as int, d1, d2);
        let x1 = self.w@[1] * c1 + self.w@[2] * d1 + self.w@[3] * SCALE;
        let x2 = self.w@[1] * c2 + self.w@[2] * d2 + self.w@[3] * SCALE;
        lemma_scaled_le(self.sden(), x1, x2);
        assert(self.w@[0] * SCALE * s1 == (self.w@[0] * SCALE) * s1);
        assert(self.w@[0] * SCALE * s2 == (self.w@[0] * SCALE) * s2);
    }
}


/// The coverage bound does not grow when the label length grows relative to
/// the data length: `sp1 / r1 <= sp2 / r2` gives `cm(r2, sp2) <= cm(r1, sp1)`.
proof fn lemma_coverage_max_order(r1: int, sp1: int, r2: int, sp2: int)
    requires
        r1 > 0,
        r2 > 0,
        sp1 > 0,
        sp2 > 0,
        sp1 * r2 <= sp2 * r1,
        coverage_max_spec(r1, sp1) is Some,
        coverage_max_spec(r2, sp2) is Some,
    ensures
        coverage_max_spec(r2, sp2)->0 <= coverage_max_spec(r1, sp1)->0,
{
    if sp2 <= r2 {
        assert(sp1 <= r1) by (nonlinear_arith)
            requires
                sp1 * r2 <= sp2 * r1,
                sp2 <= r2,
                r1 > 0,
                r2 > 0,
        ;
    } else if sp1 <= r1 {
        let r22 = r2 * r2;
        let e2 = sp2 - r2;
        let t2 = SCALE * (r22 - 25 * (e2 * e2));
        assert(r22 > 0) by (nonlinear_arith)
            requires
                r22 == r2 * r2,
                r2 > 0,
        ;
        assert(t2 * 1 <= SCALE * r22) by (nonlinear_arith)
            requires
                t2 == SCALE * (r22 - 25 * (e2 * e2)),
        ;
        lemma_floor_le(t2, r22, SCALE as int, 1);
        assert(coverage_max_q(r1, sp1) == Some((1int, 1int)));
        assert(coverage_max_spec(r1, sp1)->0 == (SCALE * 1) / 1);
        assert(coverage_max_q(r2, sp2) == Some((r22 - 25 * (e2 * e2), r22)));
        assert(coverage_max_spec(r2, sp2)->0 == t2 / r22);
    } else {
        let e1 = sp1 - r1;
        let e2 = sp2 - r2;
        let r11 = r1 * r1;
        let r22 = r2 * r2;
        let t1 = SCALE * (r11 - 25 * (e1 * e1));
        let t2 = SCALE * (r22 - 25 * (e2 * e2));
        assert(e1 * r2 <= e2 * r1) by (nonlinear_arith)
            requires
                sp1 * r2 <= sp2 * r1,
                e1 == sp1 - r1,
                e2 == sp2 - r2,
        ;
        let x = e1 * r2;
        let y = e2 * r1;
        assert(x > 0) by (nonlinear_arith)
            requires
                x == e1 * r2,
                e1 > 0,
                r2 > 0,
        ;
        assert(x * x <= y * y) by (nonlinear_arith)
            requires
                0 < x <= y,
        ;
        let pp = (e1 * e1) * r22;
        let qq = (e2 * e2) * r11;
        assert(x * x == pp) by (nonlinear_arith)
            requires
                x == e1 * r2,
                pp == (e1 * e1) * r22,
                r22 == r2 * r2,
        ;
        assert(y * y == qq) by (nonlinear_arith)
            requires
                y == e2 * r1,
                qq == (e2 * e2) * r11,
                r11 == r1 * r1,
        ;
        assert(r11 > 0 && r22 > 0) by (nonlinear_arith)
            requires
                r11 == r1 * r1,
                r22 == r2 * r2,
                r1 > 0,
                r2 > 0,
        ;
        assert(t2 * r11 == SCALE * (r22 * r11) - 25 * SCALE * qq) by (nonlinear_arith)
            requires
                t2 == SCALE * (r22 - 25 * (e2 * e2)),
                qq == (e2 * e2) * r11,
        ;
        assert(t1 * r22 == SCALE * (r22 * r11) - 25 * SCALE * pp) by (nonlinear_arith)
            requires
                t1 == SCALE * (r11 - 25 * (e1 * e1)),
                pp == (e1 * e1) * r22,
        ;
        assert(pp <= qq);
        assert(t2 * r11 <= t1 * r22) by (nonlinear_arith)
            requires
                t2 * r11 == SCALE * (r22 * r11) - 25 * SCALE * qq,
                t1 * r22 == SCALE * (r22 * r11) - 25 * SCALE * pp,
                pp <= qq,
        ;
        lemma_floor_le(t2, r22, t1, r11);
        assert(coverage_max_q(r1, sp1) == Some((r11 - 25 * (e1 * e1), r11)));
        assert(coverage_max_spec(r1, sp1)->0 == t1 / r11);
        assert(coverage_max_q(r2, sp2) == Some((r22 - 25 * (e2 * e2), r22)));
        assert(coverage_max_spec(r2, sp2)->0 == t2 / r22);
    }
}

impl Labeller {
    /// The coverage bound of the family of exponent `z + 1` is at most that of `z`.
    #[verifier::rlimit(100)]
    proof fn lemma_frame_cm_order(&self, dmin: Ratio, dmax: Ratio, i: int, j: int, k: int, z: int)
        requires
            self.wf(),
            dmin.wf(),
            dmax.wf(),
            below(dmin, dmax),
            1 <= i <= self.q@.len(),
            1 <= j,
            2 <= k,
            self.frame_spec(dmin, dmax, i, j, k, z) is Some,
            self.frame_spec(dmin, dmax, i, j, k, z + 1) is Some,
        ensures
            self.frame_spec(dmin, dmax, i, j, k, z + 1)->0.cm <= self.frame_spec(dmin, dmax, i, j, k, z)->0.cm,
    {
        self.lemma_frame_good(dmin, dmax, i, j, k, z);
        self.lemma_frame_good(dmin, dmax, i, j, k, z + 1);
        let f1 = self.frame_spec(dmin, dmax, i, j, k, z)->0;
        let f2 = self.frame_spec(dmin, dmax, i, j, k, z + 1)->0;
        let q = self.q@[i - 1];
        let bn = self.base.num as int;
        let bd = self.base.den as int;
        assert(q.positive());
        let t1 = vstd::math::abs(z);
        let t2 = vstd::math::abs(z + 1);
        assert(opow(bn, t1) is Some && opow(bd, t1) is Some && opow(bn, t2) is Some && opow(bd, t2) is Some);
        let pn1 = opow(bn, t1)->0;
        let pd1 = opow(bd, t1)->0;
        let pn2 = opow(bn, t2)->0;
        let pd2 = opow(bd, t2)->0;
        let x1 = f1.gn * f2.gd;
        let x2 = f2.gn * f1.gd;
        if z >= 0 {
            assert(t2 == t1 + 1);
            assert(opow(bn, t2) == om(opow(bn, t1), Some(bn)));
            assert(opow(bd, t2) == om(opow(bd, t1), Some(bd)));
            assert(pn2 == pn1 * bn && pd2 == pd1 * bd);
            assert(f1.gn == q.num * pn1 && f1.gd == q.den * pd1);
            assert(f2.gn == q.num * pn2 && f2.gd == q.den * pd2);
            assert(bd * x2 == bn * x1) by (nonlinear_arith)
                requires
                    x1 == f1.gn * f2.gd,
                    x2 == f2.gn * f1.gd,
                    f1.gn == q.num * pn1,
                    f1.gd == q.den * pd1,
                    f2.gn == q.num * pn2,
                    f2.gd == q.den * pd2,
                    pn2 == pn1 * bn,
                    pd2 == pd1 * bd,
            ;
        } else {
            assert(t1 == t2 + 1);
            assert(opow(bn, t1) == om(opow(bn, t2), Some(bn)));
            assert(opow(bd, t1) == om(opow(bd, t2), Some(bd)));
            assert(pn1 == pn2 * bn && pd1 == pd2 * bd);
            assert(f1.gn == q.num * pd1 && f1.gd == q.den * pn1);
            if z + 1 == 0 {
                assert(t2 == 0);
                assert(pn2 == 1 && pd2 == 1);
                assert(f2.gn == q.num * pn2 && f2.gd == q.den * pd2);
                assert(q.num * pd2 == q.num * pn2 && q.den * pn2 == q.den * pd2);
            } else {
                assert(f2.gn == q.num * pd2 && f2.gd == q.den * pn2);
            }
            assert(f2.gn == q.num * pd2 && f2.gd == q.den * pn2);
            assert(bd * x2 == bn * x1) by (nonlinear_arith)
                requires
                    x1 == f1.gn * f2.gd,
                    x2 == f2.gn * f1.gd,
                    f1.gn == q.num * pd1,
                    f1.gd == q.den * pn1,
                    f2.gn == q.num * pd2,
                    f2.gd == q.den * pn2,
                    pn1 == pn2 * bn,
                    pd1 == pd2 * bd,
            ;
        }
        lemma_common(dmin, dmax);
        let dd = common_den(dmin, dmax);
        let r0 = num_hi(dmin, dmax) - num_lo(dmin, dmax);
        assert(f1.range == r0 * f1.gd && f2.range == r0 * f2.gd) by (nonlinear_arith)
            requires
                f1.range == f1.hi - f1.lo,
                f2.range == f2.hi - f2.lo,
                f1.lo == num_lo(dmin, dmax) * f1.gd,
                f1.hi == num_hi(dmin, dmax) * f1.gd,
                f2.lo == num_lo(dmin, dmax) * f2.gd,
                f2.hi == num_hi(dmin, dmax) * f2.gd,
                r0 == num_hi(dmin, dmax) - num_lo(dmin, dmax),
        ;
        let aa = (k - 1) * j * dd;
        let cc = aa * r0;
        let g12 = f1.gn * f2.gd;
        assert(f1.span == aa * f1.gn && f2.span == aa * f2.gn) by (nonlinear_arith)
            requires
                f1.span == (k - 1) * (j * (f1.gn * dd)),
                f2.span == (k - 1) * (j * (f2.gn * dd)),
                aa == (k - 1) * j * dd,
        ;
        assert(f1.span * f2.range == cc * g12) by (nonlinear_arith)
            requires
                f1.span == aa * f1.gn,
                f2.range == r0 * f2.gd,
                cc == aa * r0,
                g12 == f1.gn * f2.gd,
        ;
        assert(f2.span * f1.range == cc * (f2.gn * f1.gd)) by (nonlinear_arith)
            requires
                f2.span == aa * f2.gn,
                f1.range == r0 * f1.gd,
                cc == aa * r0,
        ;
        assert(aa > 0) by (nonlinear_arith)
            requires
                aa == (k - 1) * j * dd,
                k >= 2,
                j >= 1,
                dd > 0,
        ;
        assert(cc > 0 && g12 > 0) by (nonlinear_arith)
            requires
                cc == aa * r0,
                aa > 0,
                g12 == f1.gn * f2.gd,
                k >= 2,
                j >= 1,
                dd > 0,
                r0 > 0,
                f1.gn > 0,
                f2.gd > 0,
        ;
        assert(g12 <= f2.gn * f1.gd) by (nonlinear_arith)
            requires
                bd * x2 == bn * x1,
                x1 == g12,
                x2 == f2.gn * f1.gd,
                bn > bd,
                bd > 0,
                g12 > 0,
        ;
        assert(cc * g12 <= cc * (f2.gn * f1.gd)) by (nonlinear_arith)
            requires
                cc > 0,
                g12 <= f2.gn * f1.gd,
        ;
        lemma_coverage_max_order(f1.range as int, f1.span as int, f2.range as int, f2.span as int);
    }
}


impl Labeller {
    pub open spec fn basic(&self, dmin: Ratio, dmax: Ratio, m: int) -> bool {
        &&& self.wf()
        &&& self.weights_nonneg()
        &&& dmin.wf()
        &&& dmax.wf()
        &&& below(dmin, dmax)
        &&& 2 <= m <= i32::MAX
    }

    proof fn lemma_starts_stay(&self, dmin: Ratio, dmax: Ratio, m: int, i: int, j: int, k: int, z: int, best: (int, Label), s: int)
        requires
            self.basic(dmin, dmax, m),
            1 <= i <= self.q@.len(),
            1 <= j,
            2 <= k,
            self.frame_spec(dmin, dmax, i, j, k, z) is Some,
            self.simplicity_spec(i, j, 1) is Some,
            density_max_spec(k, m) is Some,
            self.cap(self.simplicity_spec(i, j, 1)->0, self.frame_spec(dmin, dmax, i, j, k, z)->0.cm as int, density_max_spec(k, m)->0)
                < best.0,
        ensures
            self.fold_starts(m, i, j, k, self.frame_spec(dmin, dmax, i, j, k, z)->0, best, s) == best,
        decreases self.frame_spec(dmin, dmax, i, j, k, z)->0.last + 1 - s,
    {
        let f = self.frame_spec(dmin, dmax, i, j, k, z)->0;
        if s <= f.last {
            self.lemma_candidate_within_bound(dmin, dmax, m, i, j, k, z, s);
            assert(self.improve(best, self.cand_spec(m, i, j, k, f, s)) == best);
            self.lemma_starts_stay(dmin, dmax, m, i, j, k, z, best, s + 1);
        }
    }

    proof fn lemma_z_stay(&self, dmin: Ratio, dmax: Ratio, m: int, i: int, j: int, k: int, best: (int, Label), z: int, left: nat, c0: int)
        requires
            self.basic(dmin, dmax, m),
            1 <= i <= self.q@.len(),
            1 <= j,
            2 <= k,
            self.simplicity_spec(i, j, 1) is Some,
            density_max_spec(k, m) is Some,
            self.cap(self.simplicity_spec(i, j, 1)->0, c0, density_max_spec(k, m)->0) < best.0,
            self.frame_spec(dmin, dmax, i, j, k, z) matches Some(f) ==> f.cm <= c0,
        ensures
            self.all_z(dmin, dmax, m, i, j, k, best, z, left) == best,
        decreases left,
    {
        if left > 0 {
            if let Some(f) = self.frame_spec(dmin, dmax, i, j, k, z) {
                let sm = self.simplicity_spec(i, j, 1)->0;
                let dm = density_max_spec(k, m)->0;
                self.lemma_cap_mono(sm, f.cm as int, dm, sm, c0, dm);
                self.lemma_starts_stay(dmin, dmax, m, i, j, k, z, best, f.first as int);
                if self.frame_spec(dmin, dmax, i, j, k, z + 1) is Some {
                    self.lemma_frame_cm_order(dmin, dmax, i, j, k, z);
                }
                self.lemma_z_stay(dmin, dmax, m, i, j, k, best, z + 1, (left - 1) as nat, c0);
            }
        }
    }

    proof fn lemma_k_stay(&self, dmin: Ratio, dmax: Ratio, m: int, i: int, j: int, best: (int, Label), k: int, left: nat)
        requires
            self.basic(dmin, dmax, m),
            1 <= i <= self.q@.len(),
            1 <= j,
            2 <= k,
            k + left <= tick_limit(i32::MAX as int) + 1,
            self.simplicity_spec(i, j, 1) is Some,
            density_max_spec(k, m) is Some,
            self.cap(self.simplicity_spec(i, j, 1)->0, SCALE as int, density_max_spec(k, m)->0) < best.0,
        ensures
            self.all_k(dmin, dmax, m, i, j, best, k, left) == best,
        decreases left,
    {
        if left > 0 {
            let sm = self.simplicity_spec(i, j, 1)->0;
            if let Some(z0) = self.z_start(dmin, dmax, i, j, k) {
                self.lemma_frame_good(dmin, dmax, i, j, k, z0);
                self.lemma_z_stay(dmin, dmax, m, i, j, k, best, z0, EXPONENT_SPAN as nat, SCALE as int);
            }
            lemma_density_max_facts(k, m);
            self.lemma_cap_mono(sm, SCALE as int, density_max_spec(k + 1, m)->0, sm, SCALE as int, density_max_spec(k, m)->0);
            self.lemma_k_stay(dmin, dmax, m, i, j, best, k + 1, (left - 1) as nat);
        }
    }

    proof fn lemma_i_stay(&self, dmin: Ratio, dmax: Ratio, m: int, j: int, best: (int, Label), i: int)
        requires
            self.basic(dmin, dmax, m),
            1 <= j <= MAX_REPEAT,
            1 <= i,
            i <= self.q@.len() ==> self.cap(self.simplicity_spec(i, j, 1)->0, SCALE as int, SCALE as int) < best.0,
        ensures
            self.all_i(dmin, dmax, m, j, best, i) == best,
        decreases self.q@.len() + 1 - i,
    {
        if i <= self.q@.len() {
            self.lemma_simplicity_max_some(i, j);
            self.lemma_simplicity_max_order(i, j);
            let sm = self.simplicity_spec(i, j, 1)->0;
            lemma_density_max_facts(2, m);
            self.lemma_cap_mono(sm, SCALE as int, density_max_spec(2, m)->0, sm, SCALE as int, SCALE as int);
            self.lemma_k_stay(dmin, dmax, m, i, j, best, 2, (tick_limit(m) - 1) as nat);
            if i < self.q@.len() {
                self.lemma_cap_mono(self.simplicity_spec(i + 1, j, 1)->0, SCALE as int, SCALE as int, sm, SCALE as int, SCALE as int);
            }
            self.lemma_i_stay(dmin, dmax, m, j, best, i + 1);
        }
    }

    proof fn lemma_j_stay(&self, dmin: Ratio, dmax: Ratio, m: int, best: (int, Label), j: int, left: nat)
        requires
            self.basic(dmin, dmax, m),
            1 <= j,
            j + left <= MAX_REPEAT + 1,
            left > 0 ==> self.cap(self.simplicity_spec(1, j, 1)->0, SCALE as int, SCALE as int) < best.0,
        ensures
            self.all_j(dmin, dmax, m, best, j, left) == best,
        decreases left,
    {
        if left > 0 {
            self.lemma_i_stay(dmin, dmax, m, j, best, 1);
            if left > 1 {
                self.lemma_simplicity_max_order(1, j);
                self.lemma_cap_mono(
                    self.simplicity_spec(1, j + 1, 1)->0,
                    SCALE as int,
                    SCALE as int,
                    self.simplicity_spec(1, j, 1)->0,
                    SCALE as int,
                    SCALE as int,
                );
            }
            self.lemma_j_stay(dmin, dmax, m, best, j + 1, (left - 1) as nat);
        }
    }

    proof fn lemma_z_same(&self, dmin: Ratio, dmax: Ratio, m: int, i: int, j: int, k: int, best: (int, Label), z: int, left: nat)
        requires
            self.basic(dmin, dmax, m),
            1 <= i <= self.q@.len(),
            1 <= j,
            2 <= k,
        ensures
            self.fold_z(dmin, dmax, m, i, j, k, self.simplicity_spec(i, j, 1), density_max_spec(k, m), best, z, left)
                == self.all_z(dmin, dmax, m, i, j, k, best, z, left),
        decreases left,
    {
        let sm = self.simplicity_spec(i, j, 1);
        let dm = density_max_spec(k, m);
        if left > 0 {
            if let Some(f) = self.frame_spec(dmin, dmax, i, j, k, z) {
                if prunes(self.weigh_spec(sm, Some(f.cm as int), dm, Some(SCALE as int)), best) {
                    self.lemma_z_stay(dmin, dmax, m, i, j, k, best, z, left, f.cm as int);
                } else {
                    self.lemma_z_same(dmin, dmax, m, i, j, k, self.fold_starts(m, i, j, k, f, best, f.first as int), z + 1, (left - 1) as nat);
                }
            }
        }
    }

    proof fn lemma_k_same(&self, dmin: Ratio, dmax: Ratio, m: int, i: int, j: int, best: (int, Label), k: int, left: nat)
        requires
            self.basic(dmin, dmax, m),
            1 <= i <= self.q@.len(),
            1 <= j,
            2 <= k,
            k + left <= tick_limit(i32::MAX as int) + 1,
        ensures
            self.fold_k(dmin, dmax, m, i, j, self.simplicity_spec(i, j, 1), best, k, left) == self.all_k(dmin, dmax, m, i, j, best, k, left),
        decreases left,
    {
        let sm = self.simplicity_spec(i, j, 1);
        if left > 0 {
            let dm = density_max_spec(k, m);
            if prunes(self.weigh_spec(sm, Some(SCALE as int), dm, Some(SCALE as int)), best) {
                self.lemma_k_stay(dmin, dmax, m, i, j, best, k, left);
            } else {
                let next = match self.z_start(dmin, dmax, i, j, k) {
                    Some(z0) => self.fold_z(dmin, dmax, m, i, j, k, sm, dm, best, z0, EXPONENT_SPAN as nat),
                    None => best,
                };
                if let Some(z0) = self.z_start(dmin, dmax, i, j, k) {
                    self.lemma_z_same(dmin, dmax, m, i, j, k, best, z0, EXPONENT_SPAN as nat);
                }
                self.lemma_k_same(dmin, dmax, m, i, j, next, k + 1, (left - 1) as nat);
            }
        }
    }

    proof fn lemma_i_same(&self, dmin: Ratio, dmax: Ratio, m: int, j: int, best: (int, Label), i: int)
        requires
            self.basic(dmin, dmax, m),
            1 <= j <= MAX_REPEAT,
            1 <= i,
        ensures
            ({
                let (next, stop) = self.fold_i(dmin, dmax, m, j, best, i);
                &&& next == self.all_i(dmin, dmax, m, j, best, i)
                &&& stop ==> self.cap(self.simplicity_spec(1, j + 1, 1)->0, SCALE as int, SCALE as int) < next.0
            }),
        decreases self.q@.len() + 1 - i,
    {
        if i <= self.q@.len() {
            let sm = self.simplicity_spec(i, j, 1);
            self.lemma_simplicity_max_some(i, j);
            self.lemma_simplicity_max_order(i, j);
            if prunes(self.weigh_spec(sm, Some(SCALE as int), Some(SCALE as int), Some(SCALE as int)), best) {
                self.lemma_i_stay(dmin, dmax, m, j, best, i);
                self.lemma_cap_mono(
                    self.simplicity_spec(1, j + 1, 1)->0,
                    SCALE as int,
                    SCALE as int,
                    sm->0,
                    SCALE as int,
                    SCALE as int,
                );
            } else {
                self.lemma_k_same(dmin, dmax, m, i, j, best, 2, (tick_limit(m) - 1) as nat);
                self.lemma_i_same(dmin, dmax, m, j, self.fold_k(dmin, dmax, m, i, j, sm, best, 2, (tick_limit(m) - 1) as nat), i + 1);
            }
        }
    }

    proof fn lemma_j_same(&self, dmin: Ratio, dmax: Ratio, m: int, best: (int, Label), j: int, left: nat)
        requires
            self.basic(dmin, dmax, m),
            1 <= j,
            j + left <= MAX_REPEAT + 1,
        ensures
            self.fold_j(dmin, dmax, m, best, j, left) == self.all_j(dmin, dmax, m, best, j, left),
        decreases left,
    {
        if left > 0 {
            self.lemma_i_same(dmin, dmax, m, j, best, 1);
            let (next, stop) = self.fold_i(dmin, dmax, m, j, best, 1);
            if stop {
                self.lemma_j_stay(dmin, dmax, m, next, j + 1, (left - 1) as nat);
            } else {
                self.lemma_j_same(dmin, dmax, m, next, j + 1, (left - 1) as nat);
            }
        }
    }

    /// Pruning changes nothing: with weights that are not negative, the search
    /// returns the same label as scoring every candidate up to the same limits on
    /// the repeat, the tick count and the exponent, with no bound tested.
    pub proof fn lemma_pruning_exact(&self, dmin: Ratio, dmax: Ratio, m: int)
        requires
            self.wf(),
            self.weights_nonneg(),
            dmin.wf(),
            dmax.wf(),
            below(dmin, dmax),
            2 <= m <= i32::MAX,
        ensures
            self.search_spec(dmin, dmax, m) == self.exhaustive_spec(dmin, dmax, m),
    {
        self.lemma_j_same(dmin, dmax, m, (self.floor_score(), zero_label()), 1, MAX_REPEAT as nat);
    }
}

} // verus!

verus! {

impl Labeller {
    /// The best score and label that the search reaches.
    pub open spec fn walk_best(&self, dmin: Ratio, dmax: Ratio, m: int) -> (int, Label) {
        self.fold_j(dmin, dmax, m, (self.floor_score(), zero_label()), 1, MAX_REPEAT as nat)
    }

    /// The score of the label kept with best score `b.0`: the zero label with -2
    /// when nothing was kept, else exactly `b.0` in units of `1 / (SCALE * SCALE * sden)`.
    pub open spec fn tracks(&self, b: (int, Label)) -> bool {
        (b.1 == zero_label() && b.0 == self.floor_score()) || b.1.score == (Ratio {
            num: b.0 as i64,
            den: (SCALE * SCALE * self.sden()) as i64,
        })
    }

    /// Exponent `y` is walked after `z_lo`, with every family from `z_lo` to `y`
    /// present, and `s` is one of the start offsets of family `y`.
    pub open spec fn in_walk_z(&self, dmin: Ratio, dmax: Ratio, i: int, j: int, k: int, z_lo: int, y: int, s: int) -> bool {
        &&& z_lo <= y
        &&& forall|y2: int| z_lo <= y2 <= y ==> (#[trigger] self.frame_spec(dmin, dmax, i, j, k, y2)) is Some
        &&& self.frame_spec(dmin, dmax, i, j, k, y)->0.first <= s <= self.frame_spec(dmin, dmax, i, j, k, y)->0.last
    }

    /// The candidate `(i, j, k, y, s)` is one that the walk over exponents of `(i, j, k)` reaches.
    pub open spec fn in_walk(&self, dmin: Ratio, dmax: Ratio, i: int, j: int, k: int, y: int, s: int) -> bool {
        &&& self.z_start(dmin, dmax, i, j, k) is Some
        &&& y < self.z_start(dmin, dmax, i, j, k)->0 + EXPONENT_SPAN
        &&& self.in_walk_z(dmin, dmax, i, j, k, self.z_start(dmin, dmax, i, j, k)->0, y, s)
    }

    /// The candidate is scored and may win: for a loose labeller it contains the data.
    pub open spec fn eligible_at(&self, dmin: Ratio, dmax: Ratio, m: int, i: int, j: int, k: int, y: int, s: int) -> bool {
        self.cand_spec(m, i, j, k, self.frame_spec(dmin, dmax, i, j, k, y)->0, s) matches Some(c) && (!self.loose || c.covers)
    }

    pub open spec fn score_at(&self, dmin: Ratio, dmax: Ratio, m: int, i: int, j: int, k: int, y: int, s: int) -> int {
        self.cand_spec(m, i, j, k, self.frame_spec(dmin, dmax, i, j, k, y)->0, s)->0.score as int
    }

    proof fn lemma_starts_best(&self, m: int, i: int, j: int, k: int, f: StepFrame, b: (int, Label), s0: int)
        ensures
            self.fold_starts(m, i, j, k, f, b, s0).0 >= b.0,
            self.tracks(b) ==> self.tracks(self.fold_starts(m, i, j, k, f, b, s0)),
            forall|s: int|
                s0 <= s <= f.last && (self.cand_spec(m, i, j, k, f, s) matches Some(c) && (!self.loose || c.covers)) ==> (
                #[trigger] self.cand_spec(m, i, j, k, f, s))->0.score <= self.fold_starts(m, i, j, k, f, b, s0).0,
        decreases f.last + 1 - s0,
    {
        if s0 <= f.last {
            let b1 = self.improve(b, self.cand_spec(m, i, j, k, f, s0));
            self.lemma_starts_best(m, i, j, k, f, b1, s0 + 1);
        }
    }

    proof fn lemma_z_best(&self, dmin: Ratio, dmax: Ratio, m: int, i: int, j: int, k: int, b: (int, Label), z: int, left: nat)
        ensures
            self.all_z(dmin, dmax, m, i, j, k, b, z, left).0 >= b.0,
            self.tracks(b) ==> self.tracks(self.all_z(dmin, dmax, m, i, j, k, b, z, left)),
            forall|y: int, s: int|
                y < z + left && self.in_walk_z(dmin, dmax, i, j, k, z, y, s) && #[trigger] self.eligible_at(dmin, dmax, m, i, j, k, y, s)
                    ==> self.score_at(dmin, dmax, m, i, j, k, y, s) <= self.all_z(dmin, dmax, m, i, j, k, b, z, left).0,
        decreases left,
    {
        if left > 0 {
            if let Some(f) = self.frame_spec(dmin, dmax, i, j, k, z) {
                let b1 = self.fold_starts(m, i, j, k, f, b, f.first as int);
                self.lemma_starts_best(m, i, j, k, f, b, f.first as int);
                self.lemma_z_best(dmin, dmax, m, i, j, k, b1, z + 1, (left - 1) as nat);
                let r = self.all_z(dmin, dmax, m, i, j, k, b, z, left);
                assert forall|y: int, s: int|
                    y < z + left && self.in_walk_z(dmin, dmax, i, j, k, z, y, s) && #[trigger] self.eligible_at(dmin, dmax, m, i, j, k, y, s)
                        implies self.score_at(dmin, dmax, m, i, j, k, y, s) <= r.0 by {
                    if y == z {
                        assert(self.cand_spec(m, i, j, k, f, s) is Some);
                    } else {
                        assert(self.frame_spec(dmin, dmax, i, j, k, z) is Some);
                        assert(self.in_walk_z(dmin, dmax, i, j, k, z + 1, y, s));
                    }
                }
            } else {
                assert forall|y: int, s: int|
                    y < z + left && self.in_walk_z(dmin, dmax, i, j, k, z, y, s) && #[trigger] self.eligible_at(dmin, dmax, m, i, j, k, y, s)
                        implies self.score_at(dmin, dmax, m, i, j, k, y, s) <= b.0 by {
                    assert(self.frame_spec(dmin, dmax, i, j, k, z) is Some);
                }
            }
        }
    }

    proof fn lemma_k_best(&self, dmin: Ratio, dmax: Ratio, m: int, i: int, j: int, b: (int, Label), k: int, left: nat)
        ensures
            self.all_k(dmin, dmax, m, i, j, b, k, left).0 >= b.0,
            self.tracks(b) ==> self.tracks(self.all_k(dmin, dmax, m, i, j, b, k, left)),
            forall|kk: int, y: int, s: int|
                k <= kk < k + left && self.in_walk(dmin, dmax, i, j, kk, y, s) && #[trigger] self.eligible_at(dmin, dmax, m, i, j, kk, y, s)
                    ==> self.score_at(dmin, dmax, m, i, j, kk, y, s) <= self.all_k(dmin, dmax, m, i, j, b, k, left).0,
        decreases left,
    {
        if left > 0 {
            let next = match self.z_start(dmin, dmax, i, j, k) {
                Some(z0) => self.all_z(dmin, dmax, m, i, j, k, b, z0, EXPONENT_SPAN as nat),
                None => b,
            };
            if let Some(z0) = self.z_start(dmin, dmax, i, j, k) {
                self.lemma_z_best(dmin, dmax, m, i, j, k, b, z0, EXPONENT_SPAN as nat);
            }
            self.lemma_k_best(dmin, dmax, m, i, j, next, k + 1, (left - 1) as nat);
        }
    }

    proof fn lemma_i_best(&self, dmin: Ratio, dmax: Ratio, m: int, j: int, b: (int, Label), i: int)
        requires
            i >= 1,
        ensures
            self.all_i(dmin, dmax, m, j, b, i).0 >= b.0,
            self.tracks(b) ==> self.tracks(self.all_i(dmin, dmax, m, j, b, i)),
            forall|ii: int, kk: int, y: int, s: int|
                i <= ii <= self.q@.len() && 2 <= kk <= tick_limit(m) && self.in_walk(dmin, dmax, ii, j, kk, y, s)
                    && #[trigger] self.eligible_at(dmin, dmax, m, ii, j, kk, y, s) ==> self.score_at(dmin, dmax, m, ii, j, kk, y, s)
                    <= self.all_i(dmin, dmax, m, j, b, i).0,
        decreases self.q@.len() + 1 - i,
    {
        if i <= self.q@.len() {
            let b1 = self.all_k(dmin, dmax, m, i, j, b, 2, (tick_limit(m) - 1) as nat);
            self.lemma_k_best(dmin, dmax, m, i, j, b, 2, (tick_limit(m) - 1) as nat);
            self.lemma_i_best(dmin, dmax, m, j, b1, i + 1);
        }
    }

    proof fn lemma_j_best(&self, dmin: Ratio, dmax: Ratio, m: int, b: (int, Label), j: int, left: nat)
        ensures
            self.all_j(dmin, dmax, m, b, j, left).0 >= b.0,
            self.tracks(b) ==> self.tracks(self.all_j(dmin, dmax, m, b, j, left)),
            forall|jj: int, ii: int, kk: int, y: int, s: int|
                j <= jj < j + left && 1 <= ii <= self.q@.len() && 2 <= kk <= tick_limit(m) && self.in_walk(dmin, dmax, ii, jj, kk, y, s)
                    && #[trigger] self.eligible_at(dmin, dmax, m, ii, jj, kk, y, s) ==> self.score_at(dmin, dmax, m, ii, jj, kk, y, s)
                    <= self.all_j(dmin, dmax, m, b, j, left).0,
        decreases left,
    {
        if left > 0 {
            let b1 = self.all_i(dmin, dmax, m, j, b, 1);
            self.lemma_i_best(dmin, dmax, m, j, b, 1);
            self.lemma_j_best(dmin, dmax, m, b1, j + 1, (left - 1) as nat);
        }
    }

    /// The search returns a best candidate. With weights that are not negative,
    /// every candidate that the walk reaches (repeat `j` up to `MAX_REPEAT`, every
    /// multiplier, tick counts 2 to `tick_limit(m)`, the exponents from the smallest
    /// admissible one while their families exist, every start offset) and that may
    /// win (for a loose labeller, it contains the data) scores at most the best score
    /// `walk_best(..).0`. The returned label is the label kept with that score: its
    /// score is that score exactly, or it is the zero label and the score is -2.
    /// Ties go to the earlier candidate, since a candidate replaces the best one only
    /// with a strictly higher score (`improve`).
    pub proof fn lemma_search_best(&self, dmin: Ratio, dmax: Ratio, m: int, i: int, j: int, k: int, y: int, s: int)
        requires
            self.wf(),
            self.weights_nonneg(),
            dmin.wf(),
            dmax.wf(),
            below(dmin, dmax),
            2 <= m <= i32::MAX,
            1 <= j <= MAX_REPEAT,
            1 <= i <= self.q@.len(),
            2 <= k <= tick_limit(m),
            self.in_walk(dmin, dmax, i, j, k, y, s),
            self.eligible_at(dmin, dmax, m, i, j, k, y, s),
        ensures
            self.score_at(dmin, dmax, m, i, j, k, y, s) <= self.walk_best(dmin, dmax, m).0,
            self.tracks(self.walk_best(dmin, dmax, m)),
            self.walk_best(dmin, dmax, m).1 == self.search_spec(dmin, dmax, m),
    {
        let start = (self.floor_score(), zero_label());
        self.lemma_j_same(dmin, dmax, m, start, 1, MAX_REPEAT as nat);
        self.lemma_j_best(dmin, dmax, m, start, 1, MAX_REPEAT as nat);
        assert(self.tracks(start));
        assert(self.eligible_at(dmin, dmax, m, i, j, k, y, s));
    }
}


impl Labeller {
    /// Candidate `(i, j, k, y, s)` is reached by the walk and may win.
    pub open spec fn ok_at(&self, dmin: Ratio, dmax: Ratio, m: int, i: int, j: int, k: int, y: int, s: int) -> bool {
        &&& 1 <= j <= MAX_REPEAT
        &&& 1 <= i <= self.q@.len()
        &&& 2 <= k <= tick_limit(m)
        &&& self.in_walk(dmin, dmax, i, j, k, y, s)
        &&& self.eligible_at(dmin, dmax, m, i, j, k, y, s)
    }

    pub open spec fn label_at(&self, dmin: Ratio, dmax: Ratio, m: int, i: int, j: int, k: int, y: int, s: int) -> Label {
        self.cand_spec(m, i, j, k, self.frame_spec(dmin, dmax, i, j, k, y)->0, s)->0.label
    }

    proof fn lemma_starts_first(&self, dmin: Ratio, dmax: Ratio, m: int, i: int, j: int, k: int, y: int, b: (int, Label), s0: int)
        ensures
            ({
                let f = self.frame_spec(dmin, dmax, i, j, k, y)->0;
                let r = self.fold_starts(m, i, j, k, f, b, s0);
                r == b || (b.0 < r.0 && exists|s: int|
                    s0 <= s <= f.last && #[trigger] self.eligible_at(dmin, dmax, m, i, j, k, y, s) && self.label_at(
                        dmin,
                        dmax,
                        m,
                        i,
                        j,
                        k,
                        y,
                        s,
                    ) == r.1 && self.score_at(dmin, dmax, m, i, j, k, y, s) == r.0 && forall|s2: int|
                        s0 <= s2 < s && #[trigger] self.eligible_at(dmin, dmax, m, i, j, k, y, s2) ==> self.score_at(
                            dmin,
                            dmax,
                            m,
                            i,
                            j,
                            k,
                            y,
                            s2,
                        ) < r.0)
            }),
        decreases self.frame_spec(dmin, dmax, i, j, k, y)->0.last + 1 - s0,
    {
        let f = self.frame_spec(dmin, dmax, i, j, k, y)->0;
        if s0 <= f.last {
            let c = self.cand_spec(m, i, j, k, f, s0);
            let b1 = self.improve(b, c);
            self.lemma_starts_first(dmin, dmax, m, i, j, k, y, b1, s0 + 1);
            let r = self.fold_starts(m, i, j, k, f, b1, s0 + 1);
            assert(r == self.fold_starts(m, i, j, k, f, b, s0));
            self.lemma_starts_best(m, i, j, k, f, b1, s0 + 1);
            if r == b1 {
                if b1 != b {
                    assert(self.eligible_at(dmin, dmax, m, i, j, k, y, s0));
                    assert forall|s2: int| s0 <= s2 < s0 && #[trigger] self.eligible_at(dmin, dmax, m, i, j, k, y, s2) implies self.score_at(
                        dmin,
                        dmax,
                        m,
                        i,
                        j,
                        k,
                        y,
                        s2,
                    ) < r.0 by {}
                }
            } else {
                let s = choose|s: int|
                    s0 + 1 <= s <= f.last && #[trigger] self.eligible_at(dmin, dmax, m, i, j, k, y, s) && self.label_at(
                        dmin,
                        dmax,
                        m,
                        i,
                        j,
                        k,
                        y,
                        s,
                    ) == r.1 && self.score_at(dmin, dmax, m, i, j, k, y, s) == r.0 && forall|s2: int|
                        s0 + 1 <= s2 < s && #[trigger] self.eligible_at(dmin, dmax, m, i, j, k, y, s2) ==> self.score_at(
                            dmin,
                            dmax,
                            m,
                            i,
                            j,
                            k,
                            y,
                            s2,
                        ) < r.0;
                assert forall|s2: int| s0 <= s2 < s && #[trigger] self.eligible_at(dmin, dmax, m, i, j, k, y, s2) implies self.score_at(
                    dmin,
                    dmax,
                    m,
                    i,
                    j,
                    k,
                    y,
                    s2,
                ) < r.0 by {
                    if s2 == s0 {
                        assert(self.score_at(dmin, dmax, m, i, j, k, y, s2) <= b1.0);
                    }
                }
                assert(self.eligible_at(dmin, dmax, m, i, j, k, y, s));
            }
        }
    }
}


impl Labeller {
    /// `(y2, s2)` comes before `(y, s)` in the walk over exponents and start offsets.
    pub open spec fn before2(y2: int, s2: int, y: int, s: int) -> bool {
        y2 < y || (y2 == y && s2 < s)
    }

    pub open spec fn z_first(&self, dmin: Ratio, dmax: Ratio, m: int, i: int, j: int, k: int, b: (int, Label), z: int, left: nat) -> bool {
        let r = self.all_z(dmin, dmax, m, i, j, k, b, z, left);
        r == b || (b.0 < r.0 && exists|y: int, s: int|
            y < z + left && self.in_walk_z(dmin, dmax, i, j, k, z, y, s) && #[trigger] self.eligible_at(dmin, dmax, m, i, j, k, y, s)
                && self.label_at(dmin, dmax, m, i, j, k, y, s) == r.1 && self.score_at(dmin, dmax, m, i, j, k, y, s) == r.0
                && forall|y2: int, s2: int|
                self.in_walk_z(dmin, dmax, i, j, k, z, y2, s2) && Self::before2(y2, s2, y, s) && #[trigger] self.eligible_at(
                    dmin,
                    dmax,
                    m,
                    i,
                    j,
                    k,
                    y2,
                    s2,
                ) ==> self.score_at(dmin, dmax, m, i, j, k, y2, s2) < r.0)
    }

    #[verifier::rlimit(100)]
    proof fn lemma_z_first(&self, dmin: Ratio, dmax: Ratio, m: int, i: int, j: int, k: int, b: (int, Label), z: int, left: nat)
        ensures
            self.z_first(dmin, dmax, m, i, j, k, b, z, left),
        decreases left,
    {
        if left > 0 {
            if let Some(f) = self.frame_spec(dmin, dmax, i, j, k, z) {
                let b1 = self.fold_starts(m, i, j, k, f, b, f.first as int);
                let r = self.all_z(dmin, dmax, m, i, j, k, b1, z + 1, (left - 1) as nat);
                assert(r == self.all_z(dmin, dmax, m, i, j, k, b, z, left));
                self.lemma_starts_first(dmin, dmax, m, i, j, k, z, b, f.first as int);
                self.lemma_starts_best(m, i, j, k, f, b, f.first as int);
                self.lemma_z_first(dmin, dmax, m, i, j, k, b1, z + 1, (left - 1) as nat);
                self.lemma_z_best(dmin, dmax, m, i, j, k, b1, z + 1, (left - 1) as nat);
                if r == b1 {
                    if b1 != b {
                        let s = choose|s: int|
                            f.first <= s <= f.last && #[trigger] self.eligible_at(dmin, dmax, m, i, j, k, z, s) && self.label_at(
                                dmin,
                                dmax,
                                m,
                                i,
                                j,
                                k,
                                z,
                                s,
                            ) == b1.1 && self.score_at(dmin, dmax, m, i, j, k, z, s) == b1.0 && forall|s2: int|
                                f.first <= s2 < s && #[trigger] self.eligible_at(dmin, dmax, m, i, j, k, z, s2) ==> self.score_at(
                                    dmin,
                                    dmax,
                                    m,
                                    i,
                                    j,
                                    k,
                                    z,
                                    s2,
                                ) < b1.0;
                        assert(self.in_walk_z(dmin, dmax, i, j, k, z, z, s));
                        assert forall|y2: int, s2: int|
                            self.in_walk_z(dmin, dmax, i, j, k, z, y2, s2) && Self::before2(y2, s2, z, s) && #[trigger] self.eligible_at(
                                dmin,
                                dmax,
                                m,
                                i,
                                j,
                                k,
                                y2,
                                s2,
                            ) implies self.score_at(dmin, dmax, m, i, j, k, y2, s2) < r.0 by {
                            assert(y2 == z);
                        }
                        assert(self.eligible_at(dmin, dmax, m, i, j, k, z, s));
                    }
                } else {
                    let (y, s) = choose|y: int, s: int|
                        y < z + 1 + (left - 1) && self.in_walk_z(dmin, dmax, i, j, k, z + 1, y, s) && #[trigger] self.eligible_at(
                            dmin,
                            dmax,
                            m,
                            i,
                            j,
                            k,
                            y,
                            s,
                        ) && self.label_at(dmin, dmax, m, i, j, k, y, s) == r.1 && self.score_at(dmin, dmax, m, i, j, k, y, s) == r.0
                            && forall|y2: int, s2: int|
                            self.in_walk_z(dmin, dmax, i, j, k, z + 1, y2, s2) && Self::before2(y2, s2, y, s)
                                && #[trigger] self.eligible_at(dmin, dmax, m, i, j, k, y2, s2) ==> self.score_at(
                                dmin,
                                dmax,
                                m,
                                i,
                                j,
                                k,
                                y2,
                                s2,
                            ) < r.0;
                    assert(self.in_walk_z(dmin, dmax, i, j, k, z, y, s));
                    assert forall|y2: int, s2: int|
                        self.in_walk_z(dmin, dmax, i, j, k, z, y2, s2) && Self::before2(y2, s2, y, s) && #[trigger] self.eligible_at(
                            dmin,
                            dmax,
                            m,
                            i,
                            j,
                            k,
                            y2,
                            s2,
                        ) implies self.score_at(dmin, dmax, m, i, j, k, y2, s2) < r.0 by {
                        if y2 == z {
                            assert(self.cand_spec(m, i, j, k, f, s2) is Some);
                            assert(self.score_at(dmin, dmax, m, i, j, k, y2, s2) <= b1.0);
                        } else {
                            assert(self.in_walk_z(dmin, dmax, i, j, k, z + 1, y2, s2));
                        }
                    }
                    assert(self.eligible_at(dmin, dmax, m, i, j, k, y, s));
                }
            }
        }
    }
}


impl Labeller {
    pub open spec fn before3(k2: int, y2: int, s2: int, k: int, y: int, s: int) -> bool {
        k2 < k || (k2 == k && Self::before2(y2, s2, y, s))
    }

    pub open spec fn k_first(&self, dmin: Ratio, dmax: Ratio, m: int, i: int, j: int, b: (int, Label), k: int, left: nat) -> bool {
        let r = self.all_k(dmin, dmax, m, i, j, b, k, left);
        r == b || (b.0 < r.0 && exists|kk: int, y: int, s: int|
            k <= kk < k + left && self.in_walk(dmin, dmax, i, j, kk, y, s) && #[trigger] self.eligible_at(dmin, dmax, m, i, j, kk, y, s)
                && self.label_at(dmin, dmax, m, i, j, kk, y, s) == r.1 && self.score_at(dmin, dmax, m, i, j, kk, y, s) == r.0
                && forall|k2: int, y2: int, s2: int|
                k <= k2 && self.in_walk(dmin, dmax, i, j, k2, y2, s2) && Self::before3(k2, y2, s2, kk, y, s)
                    && #[trigger] self.eligible_at(dmin, dmax, m, i, j, k2, y2, s2) ==> self.score_at(dmin, dmax, m, i, j, k2, y2, s2)
                    < r.0)
    }

    #[verifier::rlimit(100)]
    proof fn lemma_k_first(&self, dmin: Ratio, dmax: Ratio, m: int, i: int, j: int, b: (int, Label), k: int, left: nat)
        ensures
            self.k_first(dmin, dmax, m, i, j, b, k, left),
        decreases left,
    {
        if left > 0 {
            let next = match self.z_start(dmin, dmax, i, j, k) {
                Some(z0) => self.all_z(dmin, dmax, m, i, j, k, b, z0, EXPONENT_SPAN as nat),
                None => b,
            };
            let r = self.all_k(dmin, dmax, m, i, j, next, k + 1, (left - 1) as nat);
            assert(r == self.all_k(dmin, dmax, m, i, j, b, k, left));
            self.lemma_k_first(dmin, dmax, m, i, j, next, k + 1, (left - 1) as nat);
            self.lemma_k_best(dmin, dmax, m, i, j, next, k + 1, (left - 1) as nat);
            if let Some(z0) = self.z_start(dmin, dmax, i, j, k) {
                self.lemma_z_first(dmin, dmax, m, i, j, k, b, z0, EXPONENT_SPAN as nat);
                self.lemma_z_best(dmin, dmax, m, i, j, k, b, z0, EXPONENT_SPAN as nat);
            }
            if r == next {
                if next != b {
                    let z0 = self.z_start(dmin, dmax, i, j, k)->0;
                    let (y, s) = choose|y: int, s: int|
                        y < z0 + EXPONENT_SPAN && self.in_walk_z(dmin, dmax, i, j, k, z0, y, s) && #[trigger] self.eligible_at(
                            dmin,
                            dmax,
                            m,
                            i,
                            j,
                            k,
                            y,
                            s,
                        ) && self.label_at(dmin, dmax, m, i, j, k, y, s) == next.1 && self.score_at(dmin, dmax, m, i, j, k, y, s)
                            == next.0 && forall|y2: int, s2: int|
                            self.in_walk_z(dmin, dmax, i, j, k, z0, y2, s2) && Self::before2(y2, s2, y, s)
                                && #[trigger] self.eligible_at(dmin, dmax, m, i, j, k, y2, s2) ==> self.score_at(
                                dmin,
                                dmax,
                                m,
                                i,
                                j,
                                k,
                                y2,
                                s2,
                            ) < next.0;
                    assert(self.in_walk(dmin, dmax, i, j, k, y, s));
                    assert forall|k2: int, y2: int, s2: int|
                        k <= k2 && self.in_walk(dmin, dmax, i, j, k2, y2, s2) && Self::before3(k2, y2, s2, k, y, s)
                            && #[trigger] self.eligible_at(dmin, dmax, m, i, j, k2, y2, s2) implies self.score_at(
                            dmin,
                            dmax,
                            m,
                            i,
                            j,
                            k2,
                            y2,
                            s2,
                        ) < r.0 by {
                        assert(k2 == k);
                    }
                    assert(self.eligible_at(dmin, dmax, m, i, j, k, y, s));
                }
            } else {
                let (kk, y, s) = choose|kk: int, y: int, s: int|
                    k + 1 <= kk < k + 1 + (left - 1) && self.in_walk(dmin, dmax, i, j, kk, y, s) && #[trigger] self.eligible_at(
                        dmin,
                        dmax,
                        m,
                        i,
                        j,
                        kk,
                        y,
                        s,
                    ) && self.label_at(dmin, dmax, m, i, j, kk, y, s) == r.1 && self.score_at(dmin, dmax, m, i, j, kk, y, s) == r.0
                        && forall|k2: int, y2: int, s2: int|
                        k + 1 <= k2 && self.in_walk(dmin, dmax, i, j, k2, y2, s2) && Self::before3(k2, y2, s2, kk, y, s)
                            && #[trigger] self.eligible_at(dmin, dmax, m, i, j, k2, y2, s2) ==> self.score_at(
                            dmin,
                            dmax,
                            m,
                            i,
                            j,
                            k2,
                            y2,
                            s2,
                        ) < r.0;
                assert forall|k2: int, y2: int, s2: int|
                    k <= k2 && self.in_walk(dmin, dmax, i, j, k2, y2, s2) && Self::before3(k2, y2, s2, kk, y, s)
                        && #[trigger] self.eligible_at(dmin, dmax, m, i, j, k2, y2, s2) implies self.score_at(
                        dmin,
                        dmax,
                        m,
                        i,
                        j,
                        k2,
                        y2,
                        s2,
                    ) < r.0 by {
                    if k2 == k {
                        assert(self.score_at(dmin, dmax, m, i, j, k2, y2, s2) <= next.0);
                    }
                }
                assert(self.eligible_at(dmin, dmax, m, i, j, kk, y, s));
            }
        }
    }
}


impl Labeller {
    pub open spec fn before4(i2: int, k2: int, y2: int, s2: int, i: int, k: int, y: int, s: int) -> bool {
        i2 < i || (i2 == i && Self::before3(k2, y2, s2, k, y, s))
    }

    /// `(j2, i2, k2, y2, s2)` comes before `(j, i, k, y, s)` in the order of the walk:
    /// repeat, multiplier, tick count, exponent, start offset.
    pub open spec fn before5(j2: int, i2: int, k2: int, y2: int, s2: int, j: int, i: int, k: int, y: int, s: int) -> bool {
        j2 < j || (j2 == j && Self::before4(i2, k2, y2, s2, i, k, y, s))
    }

    pub open spec fn i_first(&self, dmin: Ratio, dmax: Ratio, m: int, j: int, b: (int, Label), i: int) -> bool {
        let r = self.all_i(dmin, dmax, m, j, b, i);
        r == b || (b.0 < r.0 && exists|ii: int, kk: int, y: int, s: int|
            i <= ii <= self.q@.len() && 2 <= kk <= tick_limit(m) && self.in_walk(dmin, dmax, ii, j, kk, y, s)
                && #[trigger] self.eligible_at(dmin, dmax, m, ii, j, kk, y, s) && self.label_at(dmin, dmax, m, ii, j, kk, y, s) == r.1
                && self.score_at(dmin, dmax, m, ii, j, kk, y, s) == r.0 && forall|i2: int, k2: int, y2: int, s2: int|
                i <= i2 <= self.q@.len() && 2 <= k2 <= tick_limit(m) && self.in_walk(dmin, dmax, i2, j, k2, y2, s2) && Self::before4(
                    i2,
                    k2,
                    y2,
                    s2,
                    ii,
                    kk,
                    y,
                    s,
                ) && #[trigger] self.eligible_at(dmin, dmax, m, i2, j, k2, y2, s2) ==> self.score_at(dmin, dmax, m, i2, j, k2, y2, s2)
                    < r.0)
    }

    #[verifier::rlimit(100)]
    proof fn lemma_i_first(&self, dmin: Ratio, dmax: Ratio, m: int, j: int, b: (int, Label), i: int)
        requires
            i >= 1,
            m >= 2,
        ensures
            self.i_first(dmin, dmax, m, j, b, i),
        decreases self.q@.len() + 1 - i,
    {
        if i <= self.q@.len() {
            let left = (tick_limit(m) - 1) as nat;
            let next = self.all_k(dmin, dmax, m, i, j, b, 2, left);
            let r = self.all_i(dmin, dmax, m, j, next, i + 1);
            assert(r == self.all_i(dmin, dmax, m, j, b, i));
            self.lemma_k_first(dmin, dmax, m, i, j, b, 2, left);
            self.lemma_k_best(dmin, dmax, m, i, j, b, 2, left);
            self.lemma_i_first(dmin, dmax, m, j, next, i + 1);
            self.lemma_i_best(dmin, dmax, m, j, next, i + 1);
            if r == next {
                if next != b {
                    let (kk, y, s) = choose|kk: int, y: int, s: int|
                        2 <= kk < 2 + left && self.in_walk(dmin, dmax, i, j, kk, y, s) && #[trigger] self.eligible_at(
                            dmin,
                            dmax,
                            m,
                            i,
                            j,
                            kk,
                            y,
                            s,
                        ) && self.label_at(dmin, dmax, m, i, j, kk, y, s) == next.1 && self.score_at(dmin, dmax, m, i, j, kk, y, s)
                            == next.0 && forall|k2: int, y2: int, s2: int|
                            2 <= k2 && self.in_walk(dmin, dmax, i, j, k2, y2, s2) && Self::before3(k2, y2, s2, kk, y, s)
                                && #[trigger] self.eligible_at(dmin, dmax, m, i, j, k2, y2, s2) ==> self.score_at(
                                dmin,
                                dmax,
                                m,
                                i,
                                j,
                                k2,
                                y2,
                                s2,
                            ) < next.0;
                    assert forall|i2: int, k2: int, y2: int, s2: int|
                        i <= i2 <= self.q@.len() && 2 <= k2 <= tick_limit(m) && self.in_walk(dmin, dmax, i2, j, k2, y2, s2)
                            && Self::before4(i2, k2, y2, s2, i, kk, y, s) && #[trigger] self.eligible_at(dmin, dmax, m, i2, j, k2, y2, s2)
                            implies self.score_at(dmin, dmax, m, i2, j, k2, y2, s2) < r.0 by {
                        assert(i2 == i);
                    }
                    assert(self.eligible_at(dmin, dmax, m, i, j, kk, y, s));
                }
            } else {
                let (ii, kk, y, s) = choose|ii: int, kk: int, y: int, s: int|
                    i + 1 <= ii <= self.q@.len() && 2 <= kk <= tick_limit(m) && self.in_walk(dmin, dmax, ii, j, kk, y, s)
                        && #[trigger] self.eligible_at(dmin, dmax, m, ii, j, kk, y, s) && self.label_at(dmin, dmax, m, ii, j, kk, y, s)
                        == r.1 && self.score_at(dmin, dmax, m, ii, j, kk, y, s) == r.0 && forall|i2: int, k2: int, y2: int, s2: int|
                        i + 1 <= i2 <= self.q@.len() && 2 <= k2 <= tick_limit(m) && self.in_walk(dmin, dmax, i2, j, k2, y2, s2)
                            && Self::before4(i2, k2, y2, s2, ii, kk, y, s) && #[trigger] self.eligible_at(dmin, dmax, m, i2, j, k2, y2, s2)
                            ==> self.score_at(dmin, dmax, m, i2, j, k2, y2, s2) < r.0;
                assert forall|i2: int, k2: int, y2: int, s2: int|
                    i <= i2 <= self.q@.len() && 2 <= k2 <= tick_limit(m) && self.in_walk(dmin, dmax, i2, j, k2, y2, s2) && Self::before4(
                        i2,
                        k2,
                        y2,
                        s2,
                        ii,
                        kk,
                        y,
                        s,
                    ) && #[trigger] self.eligible_at(dmin, dmax, m, i2, j, k2, y2, s2) implies self.score_at(
                        dmin,
                        dmax,
                        m,
                        i2,
                        j,
                        k2,
                        y2,
                        s2,
                    ) < r.0 by {
                    if i2 == i {
                        assert(self.score_at(dmin, dmax, m, i2, j, k2, y2, s2) <= next.0);
                    }
                }
                assert(self.eligible_at(dmin, dmax, m, ii, j, kk, y, s));
            }
        }
    }

    pub open spec fn j_first(&self, dmin: Ratio, dmax: Ratio, m: int, b: (int, Label), j: int, left: nat) -> bool {
        let r = self.all_j(dmin, dmax, m, b, j, left);
        r == b || (b.0 < r.0 && exists|jj: int, ii: int, kk: int, y: int, s: int|
            j <= jj < j + left && 1 <= ii <= self.q@.len() && 2 <= kk <= tick_limit(m) && self.in_walk(dmin, dmax, ii, jj, kk, y, s)
                && #[trigger] self.eligible_at(dmin, dmax, m, ii, jj, kk, y, s) && self.label_at(dmin, dmax, m, ii, jj, kk, y, s) == r.1
                && self.score_at(dmin, dmax, m, ii, jj, kk, y, s) == r.0 && forall|j2: int, i2: int, k2: int, y2: int, s2: int|
                j <= j2 && 1 <= i2 <= self.q@.len() && 2 <= k2 <= tick_limit(m) && self.in_walk(dmin, dmax, i2, j2, k2, y2, s2)
                    && Self::before5(j2, i2, k2, y2, s2, jj, ii, kk, y, s) && #[trigger] self.eligible_at(
                    dmin,
                    dmax,
                    m,
                    i2,
                    j2,
                    k2,
                    y2,
                    s2,
                ) ==> self.score_at(dmin, dmax, m, i2, j2, k2, y2, s2) < r.0)
    }

    #[verifier::rlimit(100)]
    proof fn lemma_j_first(&self, dmin: Ratio, dmax: Ratio, m: int, b: (int, Label), j: int, left: nat)
        requires
            m >= 2,
        ensures
            self.j_first(dmin, dmax, m, b, j, left),
        decreases left,
    {
        if left > 0 {
            let next = self.all_i(dmin, dmax, m, j, b, 1);
            let r = self.all_j(dmin, dmax, m, next, j + 1, (left - 1) as nat);
            assert(r == self.all_j(dmin, dmax, m, b, j, left));
            self.lemma_i_first(dmin, dmax, m, j, b, 1);
            self.lemma_i_best(dmin, dmax, m, j, b, 1);
            self.lemma_j_first(dmin, dmax, m, next, j + 1, (left - 1) as nat);
            self.lemma_j_best(dmin, dmax, m, next, j + 1, (left - 1) as nat);
            if r == next {
                if next != b {
                    let (ii, kk, y, s) = choose|ii: int, kk: int, y: int, s: int|
                        1 <= ii <= self.q@.len() && 2 <= kk <= tick_limit(m) && self.in_walk(dmin, dmax, ii, j, kk, y, s)
                            && #[trigger] self.eligible_at(dmin, dmax, m, ii, j, kk, y, s) && self.label_at(dmin, dmax, m, ii, j, kk, y, s)
                            == next.1 && self.score_at(dmin, dmax, m, ii, j, kk, y, s) == next.0 && forall|
                            i2: int,
                            k2: int,
                            y2: int,
                            s2: int,
                        |
                            1 <= i2 <= self.q@.len() && 2 <= k2 <= tick_limit(m) && self.in_walk(dmin, dmax, i2, j, k2, y2, s2)
                                && Self::before4(i2, k2, y2, s2, ii, kk, y, s) && #[trigger] self.eligible_at(
                                dmin,
                                dmax,
                                m,
                                i2,
                                j,
                                k2,
                                y2,
                                s2,
                            ) ==> self.score_at(dmin, dmax, m, i2, j, k2, y2, s2) < next.0;
                    assert forall|j2: int, i2: int, k2: int, y2: int, s2: int|
                        j <= j2 && 1 <= i2 <= self.q@.len() && 2 <= k2 <= tick_limit(m) && self.in_walk(dmin, dmax, i2, j2, k2, y2, s2)
                            && Self::before5(j2, i2, k2, y2, s2, j, ii, kk, y, s) && #[trigger] self.eligible_at(
                            dmin,
                            dmax,
                            m,
                            i2,
                            j2,
                            k2,
                            y2,
                            s2,
                        ) implies self.score_at(dmin, dmax, m, i2, j2, k2, y2, s2) < r.0 by {
                        assert(j2 == j);
                    }
                    assert(self.eligible_at(dmin, dmax, m, ii, j, kk, y, s));
                }
            } else {
                let (jj, ii, kk, y, s) = choose|jj: int, ii: int, kk: int, y: int, s: int|
                    j + 1 <= jj < j + 1 + (left - 1) && 1 <= ii <= self.q@.len() && 2 <= kk <= tick_limit(m) && self.in_walk(
                        dmin,
                        dmax,
                        ii,
                        jj,
                        kk,
                        y,
                        s,
                    ) && #[trigger] self.eligible_at(dmin, dmax, m, ii, jj, kk, y, s) && self.label_at(dmin, dmax, m, ii, jj, kk, y, s)
                        == r.1 && self.score_at(dmin, dmax, m, ii, jj, kk, y, s) == r.0 && forall|
                        j2: int,
                        i2: int,
                        k2: int,
                        y2: int,
                        s2: int,
                    |
                        j + 1 <= j2 && 1 <= i2 <= self.q@.len() && 2 <= k2 <= tick_limit(m) && self.in_walk(
                            dmin,
                            dmax,
                            i2,
                            j2,
                            k2,
                            y2,
                            s2,
                        ) && Self::before5(j2, i2, k2, y2, s2, jj, ii, kk, y, s) && #[trigger] self.eligible_at(
                            dmin,
                            dmax,
                            m,
                            i2,
                            j2,
                            k2,
                            y2,
                            s2,
                        ) ==> self.score_at(dmin, dmax, m, i2, j2, k2, y2, s2) < r.0;
                assert forall|j2: int, i2: int, k2: int, y2: int, s2: int|
                    j <= j2 && 1 <= i2 <= self.q@.len() && 2 <= k2 <= tick_limit(m) && self.in_walk(dmin, dmax, i2, j2, k2, y2, s2)
                        && Self::before5(j2, i2, k2, y2, s2, jj, ii, kk, y, s) && #[trigger] self.eligible_at(
                        dmin,
                        dmax,
                        m,
                        i2,
                        j2,
                        k2,
                        y2,
                        s2,
                    ) implies self.score_at(dmin, dmax, m, i2, j2, k2, y2, s2) < r.0 by {
                    if j2 == j {
                        assert(self.score_at(dmin, dmax, m, i2, j2, k2, y2, s2) <= next.0);
                    }
                }
                assert(self.eligible_at(dmin, dmax, m, ii, jj, kk, y, s));
            }
        }
    }

    /// Ties go to the earlier candidate. With weights that are not negative, the
    /// search either keeps the zero label with score -2, or returns the label of a
    /// candidate of the walk that may win, has the best score, and is the first such:
    /// every candidate that may win and comes before it in the walk (repeat,
    /// multiplier, tick count, exponent, start offset) scores strictly less.
    pub proof fn lemma_search_first(&self, dmin: Ratio, dmax: Ratio, m: int)
        requires
            self.wf(),
            self.weights_nonneg(),
            dmin.wf(),
            dmax.wf(),
            below(dmin, dmax),
            2 <= m <= i32::MAX,
        ensures
            self.walk_best(dmin, dmax, m) == (self.floor_score(), zero_label()) || exists|
                j: int,
                i: int,
                k: int,
                y: int,
                s: int,
            |
                1 <= j <= MAX_REPEAT && #[trigger] self.ok_at(dmin, dmax, m, i, j, k, y, s) && self.label_at(dmin, dmax, m, i, j, k, y, s)
                    == self.search_spec(dmin, dmax, m) && self.score_at(dmin, dmax, m, i, j, k, y, s) == self.walk_best(dmin, dmax, m).0
                    && forall|j2: int, i2: int, k2: int, y2: int, s2: int|
                    #[trigger] self.ok_at(dmin, dmax, m, i2, j2, k2, y2, s2) && Self::before5(j2, i2, k2, y2, s2, j, i, k, y, s)
                        ==> self.score_at(dmin, dmax, m, i2, j2, k2, y2, s2) < self.walk_best(dmin, dmax, m).0,
    {
        let start = (self.floor_score(), zero_label());
        self.lemma_j_same(dmin, dmax, m, start, 1, MAX_REPEAT as nat);
        self.lemma_j_first(dmin, dmax, m, start, 1, MAX_REPEAT as nat);
        let r = self.walk_best(dmin, dmax, m);
        if r != start {
            let (j, i, k, y, s) = choose|jj: int, ii: int, kk: int, y: int, s: int|
                1 <= jj < 1 + MAX_REPEAT && 1 <= ii <= self.q@.len() && 2 <= kk <= tick_limit(m) && self.in_walk(dmin, dmax, ii, jj, kk, y, s)
                    && #[trigger] self.eligible_at(dmin, dmax, m, ii, jj, kk, y, s) && self.label_at(dmin, dmax, m, ii, jj, kk, y, s)
                    == r.1 && self.score_at(dmin, dmax, m, ii, jj, kk, y, s) == r.0 && forall|
                    j2: int,
                    i2: int,
                    k2: int,
                    y2: int,
                    s2: int,
                |
                    1 <= j2 && 1 <= i2 <= self.q@.len() && 2 <= k2 <= tick_limit(m) && self.in_walk(dmin, dmax, i2, j2, k2, y2, s2)
                        && Self::before5(j2, i2, k2, y2, s2, jj, ii, kk, y, s) && #[trigger] self.eligible_at(
                        dmin,
                        dmax,
                        m,
                        i2,
                        j2,
                        k2,
                        y2,
                        s2,
                    ) ==> self.score_at(dmin, dmax, m, i2, j2, k2, y2, s2) < r.0;
            assert(self.ok_at(dmin, dmax, m, i, j, k, y, s));
            assert forall|j2: int, i2: int, k2: int, y2: int, s2: int|
                #[trigger] self.ok_at(dmin, dmax, m, i2, j2, k2, y2, s2) && Self::before5(j2, i2, k2, y2, s2, j, i, k, y, s)
                    implies self.score_at(dmin, dmax, m, i2, j2, k2, y2, s2) < r.0 by {
                assert(self.eligible_at(dmin, dmax, m, i2, j2, k2, y2, s2));
            }
        }
    }
}

} // verus!
