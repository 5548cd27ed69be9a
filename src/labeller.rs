//! Extended Wilkinson search for "nice" axis labels, computed exactly.
//!
//! Every quantity is an integer or a rational. Simplicity is kept exact, as a
//! multiple of `1 / sden` (`sden = n - 1` for `n > 1` multipliers); coverage and
//! density are computed exactly and then rounded down to millionths (`SCALE`);
//! weights are given in millionths too. A score is therefore an integer number of
//! `1 / (SCALE * SCALE * sden)`ths, and the base may be any ratio above 1.
//! A candidate one of whose quantities would leave the 128-bit range (or whose
//! label would not fit `i64` parts) is passed over; a family of candidates whose
//! common quantities would leave it ends the walk over exponents; a pruning bound
//! that would leave it prunes nothing.
//!
//! The search walks the candidates in a fixed order and keeps the first with the
//! strictly highest score; `search_spec` states the walk with its pruning,
//! `exhaustive_spec` the same walk without it, and `laws` proves them equal.
use vstd::prelude::*;
use crate::ratio::{Ratio, fits, gcd, gcd_exec, lemma_gcd_divides, om, oa, os, ofloor, lift, mul_checked, add_checked, sub_checked, floor_div};

verus! {

/// Fixed-point unit of the criteria and of the weights: one millionth.
pub const SCALE: i128 = 1_000_000;

/// Largest repeat multiplier `j` tried.
pub const MAX_REPEAT: i128 = 16;

/// Tick counts `k` beyond four times the target that are still tried.
pub const MAX_TICKS: i128 = 48;

/// Largest tick count `k` tried for a target of `m` ticks: `4 * m + MAX_TICKS`. It is
/// a safety valve: the walk over `k` ends earlier once the density bound makes the
/// best score found so far out of reach, which happens as soon as a candidate has
/// scored well enough; before any candidate has scored, only this limit ends it.
pub open spec fn tick_limit(m: int) -> int {
    4 * m + MAX_TICKS
}

/// Every tick count that any target can lead to.
pub open spec fn tick_ok(k: int) -> bool {
    2 <= k <= tick_limit(i32::MAX as int) + 1
}

/// Number of exponents `z` tried above the smallest admissible one.
pub const EXPONENT_SPAN: i128 = 24;

/// Configuration of the search.
pub struct Labeller {
    /// Preferred step multipliers, in order of preference.
    pub q: Vec<Ratio>,
    /// Base of the exponent applied to a step multiplier.
    pub base: Ratio,
    /// Weights of simplicity, coverage, density and legibility, in millionths.
    pub w: Vec<i64>,
    /// Tolerance of the test that the origin is a tick.
    pub eps: Ratio,
    /// Whether the label range must contain the data range.
    pub loose: bool,
}

/// The chosen axis: bounds, step, and the score that won
/// (an exact ratio, over `SCALE * SCALE * sden`).
#[derive(Clone, Copy, Debug, PartialEq)]
pub struct Label {
    pub min: Ratio,
    pub max: Ratio,
    pub step: Ratio,
    pub score: Ratio,
}

pub open spec fn zero_label() -> Label {
    Label {
        min: Ratio { num: 0, den: 1 },
        max: Ratio { num: 0, den: 1 },
        step: Ratio { num: 0, den: 1 },
        score: Ratio { num: 0, den: 1 },
    }
}

impl Label {
    /// The zero label, returned when no candidate was found.
    pub fn new() -> (r: Label)
        ensures
            r == zero_label(),
    {
        Label {
            min: Ratio::from_int(0),
            max: Ratio::from_int(0),
            step: Ratio::from_int(0),
            score: Ratio::from_int(0),
        }
    }
}

/// An exact rational as a numerator and a positive denominator, in exec form.
pub open spec fn lift2(r: Option<(i128, i128)>) -> Option<(int, int)> {
    match r {
        Some((n, d)) => Some((n as int, d as int)),
        None => None,
    }
}

/// The rational `q`, rounded down to millionths (`SCALE`); `None` when `q` is
/// missing or `SCALE` times its numerator leaves the 128-bit range.
pub open spec fn to_fixed(q: Option<(int, int)>) -> Option<int> {
    match q {
        Some((n, d)) => ofloor(om(Some(SCALE as int), Some(n)), Some(d)),
        None => None,
    }
}

/// `2 - x / y` exactly, as `(2y - x) / y`.
pub open spec fn two_minus_q(x: Option<int>, y: Option<int>) -> Option<(int, int)> {
    match (os(om(Some(2), y), x), y) {
        (Some(n), Some(d)) => Some((n, d)),
        _ => None,
    }
}

/// The density bound `2 - (k - 1) / (m - 1)` for `k >= m`, else 1, exactly.
pub open spec fn density_max_q(k: int, m: int) -> Option<(int, int)> {
    if k >= m {
        two_minus_q(Some(k - 1), Some(m - 1))
    } else {
        Some((1, 1))
    }
}

/// The density bound in millionths, as the search weighs it.
pub open spec fn density_max_spec(k: int, m: int) -> Option<int> {
    to_fixed(density_max_q(k, m))
}

/// Coverage of the data `[dmin, dmax]` by `[lmin, lmax]`, all over one common unit,
/// exactly: `1 - 0.5 * ((dmax - lmax)^2 + (dmin - lmin)^2) / (0.1 * (dmax - dmin))^2`,
/// which is `((dmax - dmin)^2 - 50 * ((dmax - lmax)^2 + (dmin - lmin)^2)) / (dmax - dmin)^2`.
pub open spec fn coverage_q(dmin: int, dmax: int, lmin: int, lmax: int) -> Option<(int, int)> {
    let a = os(Some(dmax), Some(lmax));
    let b = os(Some(dmin), Some(lmin));
    let r = os(Some(dmax), Some(dmin));
    let r2 = om(r, r);
    let sq = oa(om(a, a), om(b, b));
    match (os(r2, om(Some(50), sq)), r2) {
        (Some(n), Some(d)) => Some((n, d)),
        _ => None,
    }
}

/// Coverage in millionths, as the search weighs it.
pub open spec fn coverage_spec(dmin: int, dmax: int, lmin: int, lmax: int) -> Option<int> {
    to_fixed(coverage_q(dmin, dmax, lmin, lmax))
}

/// The coverage bound for a label range of length `span` over data of length `range`,
/// exactly: `1 - ((span - range) / 2)^2 / (0.1 * range)^2` when `span > range`, which is
/// `(range^2 - 25 * (span - range)^2) / range^2`, else 1.
pub open spec fn coverage_max_q(range: int, span: int) -> Option<(int, int)> {
    if span > range {
        let r2 = om(Some(range), Some(range));
        let e = os(Some(span), Some(range));
        match (os(r2, om(Some(25), om(e, e))), r2) {
            (Some(n), Some(d)) => Some((n, d)),
            _ => None,
        }
    } else {
        Some((1, 1))
    }
}

/// The coverage bound in millionths, as the search weighs it.
pub open spec fn coverage_max_spec(range: int, span: int) -> Option<int> {
    to_fixed(coverage_max_q(range, span))
}

pub open spec fn max_int(a: int, b: int) -> int {
    if a >= b { a } else { b }
}

pub open spec fn min_int(a: int, b: int) -> int {
    if a <= b { a } else { b }
}

/// Density, exactly: `2 - max(r / rt, rt / r)` with `r = (k - 1) / (lmax - lmin)` and
/// `rt = (m - 1) / (max(lmax, dmax) - min(lmin, dmin))`. With
/// `x = (k - 1) * (max(lmax, dmax) - min(lmin, dmin))` and `y = (m - 1) * (lmax - lmin)`,
/// `r / rt = x / y`, so this is `(2y - x) / y` when `x >= y`, else `(2x - y) / x`.
pub open spec fn density_q(k: int, m: int, dmin: int, dmax: int, lmin: int, lmax: int) -> Option<(int, int)> {
    let x = om(Some(k - 1), os(Some(max_int(lmax, dmax)), Some(min_int(lmin, dmin))));
    let y = om(Some(m - 1), os(Some(lmax), Some(lmin)));
    match (x, y) {
        (Some(xv), Some(yv)) => if xv >= yv { two_minus_q(x, y) } else { two_minus_q(y, x) },
        _ => None,
    }
}

/// Density in millionths, as the search weighs it.
pub open spec fn density_spec(k: int, m: int, dmin: int, dmax: int, lmin: int, lmax: int) -> Option<int> {
    to_fixed(density_q(k, m, dmin, dmax, lmin, lmax))
}

/// `b^t`, or `None` once a power leaves the 128-bit range.
pub open spec fn opow(b: int, t: nat) -> Option<int>
    decreases t,
{
    if t == 0 {
        Some(1)
    } else {
        om(opow(b, (t - 1) as nat), Some(b))
    }
}

/// `o + n` when `o` holds a value.
pub open spec fn shift(o: Option<int>, n: int) -> Option<int> {
    match o {
        Some(t) => Some(t + n),
        None => None,
    }
}

/// How many times `p` is multiplied by `a` and `lim` by `c` before `p >= lim`
/// (at most `fuel`), or `None` when a product leaves the 128-bit range.
pub open spec fn climb(p: int, lim: int, a: int, c: int, fuel: nat) -> Option<int>
    decreases fuel,
{
    if fuel == 0 || p >= lim {
        Some(0)
    } else if !fits(p * a) || !fits(lim * c) {
        None
    } else {
        shift(climb(p * a, lim * c, a, c, (fuel - 1) as nat), 1)
    }
}

/// How many times `p` can be multiplied by `a` and `lim` by `c` with `p <= lim`
/// still holding (at most `fuel`), or `None` when a product leaves the 128-bit range.
pub open spec fn fit_times(p: int, lim: int, a: int, c: int, fuel: nat) -> Option<int>
    decreases fuel,
{
    if fuel == 0 {
        Some(0)
    } else if !fits(p * a) || !fits(lim * c) {
        None
    } else if p * a > lim * c {
        Some(0)
    } else {
        shift(fit_times(p * a, lim * c, a, c, (fuel - 1) as nat), 1)
    }
}

/// Whether a bound prunes: it was computed and lies below the best score.
pub open spec fn prunes(bound: Option<int>, best: (int, Label)) -> bool {
    bound matches Some(bd) && bd < best.0
}

pub open spec fn fits64(x: int) -> bool {
    i64::MIN <= x <= i64::MAX
}

/// The candidates that share a multiplier, a repeat count, a tick count and an
/// exponent, with every length expressed over one common unit.
#[derive(Clone, Copy)]
pub struct StepFrame {
    /// Numerator and denominator of `q * base^z`.
    pub gn: i128,
    pub gd: i128,
    /// `q * base^z` over the common unit.
    pub unit: i128,
    /// The step `j * q * base^z` over the common unit.
    pub step: i128,
    /// The length `(k - 1) * step` of a label range.
    pub span: i128,
    /// The data bounds and their distance over the common unit.
    pub lo: i128,
    pub hi: i128,
    pub range: i128,
    /// The first and the last start offset.
    pub first: i128,
    pub last: i128,
    /// The coverage bound of the family.
    pub cm: i128,
}

impl StepFrame {
    pub open spec fn good(self) -> bool {
        &&& self.gn > 0
        &&& self.gd > 0
        &&& self.unit > 0
        &&& self.step > 0
        &&& self.span > 0
        &&& self.lo < self.hi
        &&& self.range == self.hi - self.lo
    }
}

/// One scored candidate: its score, its label and whether it contains the data.
#[derive(Clone, Copy)]
pub struct Cand {
    pub score: i128,
    pub label: Label,
    pub covers: bool,
}

/// The least common denominator of two ratios: `a.den * (b.den / gcd)`.
pub open spec fn common_den(a: Ratio, b: Ratio) -> int {
    a.den * (b.den as int / gcd(a.den as nat, b.den as nat) as int)
}

/// The numerator of `a` over `common_den(a, b)`.
pub open spec fn num_lo(a: Ratio, b: Ratio) -> int {
    a.num * (b.den as int / gcd(a.den as nat, b.den as nat) as int)
}

/// The numerator of `b` over `common_den(a, b)`.
pub open spec fn num_hi(a: Ratio, b: Ratio) -> int {
    b.num * (a.den as int / gcd(a.den as nat, b.den as nat) as int)
}

/// Over their least common denominator the two bounds keep their values and order,
/// and every part fits 128 bits.
pub proof fn lemma_common(a: Ratio, b: Ratio)
    requires
        a.wf(),
        b.wf(),
        below(a, b),
    ensures
        common_den(a, b) > 0,
        num_lo(a, b) < num_hi(a, b),
        num_lo(a, b) * a.den == a.num * common_den(a, b),
        num_hi(a, b) * b.den == b.num * common_den(a, b),
        fits(common_den(a, b)),
        fits(num_lo(a, b)),
        fits(num_hi(a, b)),
        0 < b.den as int / gcd(a.den as nat, b.den as nat) as int <= b.den,
        0 < a.den as int / gcd(a.den as nat, b.den as nat) as int <= a.den,
{
    lemma_gcd_divides(a.den as nat, b.den as nat);
    let g = gcd(a.den as nat, b.den as nat) as int;
    let h = b.den as int / g;
    let h2 = a.den as int / g;
    assert(0 < h <= b.den && 0 < h2 <= a.den) by (nonlinear_arith)
        requires
            h * g == b.den,
            h2 * g == a.den,
            g > 0,
            b.den > 0,
            a.den > 0,
    ;
    assert(a.den * h > 0) by (nonlinear_arith)
        requires
            a.den > 0,
            h > 0,
    ;
    assert((a.num * h) * a.den == a.num * (a.den * h)) by (nonlinear_arith);
    assert((b.num * h2) * b.den == b.num * (a.den * h)) by (nonlinear_arith)
        requires
            h * g == b.den,
            h2 * g == a.den,
    ;
    assert(a.num * h < b.num * h2) by (nonlinear_arith)
        requires
            a.num * b.den < b.num * a.den,
            h * g == b.den,
            h2 * g == a.den,
            g > 0,
    ;
    assert(fits(a.den * h) && fits(a.num * h) && fits(b.num * h2)) by (nonlinear_arith)
        requires
            0 < h <= b.den <= i64::MAX,
            0 < h2 <= a.den <= i64::MAX,
            0 < a.den <= i64::MAX,
            i64::MIN <= a.num <= i64::MAX,
            i64::MIN <= b.num <= i64::MAX,
    ;
}

/// The two bounds over their least common denominator: that denominator and both numerators.
fn over_common(a: &Ratio, b: &Ratio) -> (r: (i128, i128, i128))
    requires
        a.wf(),
        b.wf(),
        below(*a, *b),
    ensures
        r.0 == common_den(*a, *b),
        r.1 == num_lo(*a, *b),
        r.2 == num_hi(*a, *b),
{
    let g = gcd_exec(a.den, b.den);
    proof {
        lemma_common(*a, *b);
    }
    let hb = (b.den as u64) / (g as u64);
    let ha = (a.den as u64) / (g as u64);
    ((a.den as i128) * (hb as i128), (a.num as i128) * (hb as i128), (b.num as i128) * (ha as i128))
}

/// `dmin < dmax` as numbers.
pub open spec fn below(a: Ratio, b: Ratio) -> bool {
    a.num * b.den < b.num * a.den
}

impl Labeller {
    pub open spec fn wf(&self) -> bool {
        &&& self.q@.len() <= usize::MAX
        &&& forall|t: int| 0 <= t < self.q@.len() ==> (#[trigger] self.q@[t]).positive()
        &&& self.base.den > 0
        &&& self.base.num > self.base.den
        &&& self.w@.len() == 4
        &&& self.eps.num > 0
        &&& self.eps.den > 0
    }

    pub open spec fn preferred(&self) -> Seq<Ratio> {
        self.q@
    }

    pub open spec fn base_spec(&self) -> Ratio {
        self.base
    }

    pub open spec fn weights(&self) -> Seq<i64> {
        self.w@
    }

    pub open spec fn tolerance(&self) -> Ratio {
        self.eps
    }


    /// The family of candidates for multiplier `i`, repeat `j`, `k` ticks and exponent `z`.
    pub open spec fn frame_spec(&self, dmin: Ratio, dmax: Ratio, i: int, j: int, k: int, z: int) -> Option<StepFrame> {
        let q = self.q@[i - 1];
        let pn = opow(self.base.num as int, vstd::math::abs(z));
        let pd = opow(self.base.den as int, vstd::math::abs(z));
        let gn = if z >= 0 { om(Some(q.num as int), pn) } else { om(Some(q.num as int), pd) };
        let gd = if z >= 0 { om(Some(q.den as int), pd) } else { om(Some(q.den as int), pn) };
        let dd = Some(common_den(dmin, dmax));
        let a0 = Some(num_lo(dmin, dmax));
        let b0 = Some(num_hi(dmin, dmax));
        let unit = om(gn, dd);
        let step = om(Some(j), unit);
        let span = om(Some(k - 1), step);
        let lo = om(a0, gd);
        let hi = om(b0, gd);
        let range = os(hi, lo);
        let first = os(ofloor(hi, step), Some((k - 1) * j));
        let last = os(Some(0), ofloor(os(Some(0), lo), unit));
        let cm = match (range, span) {
            (Some(r), Some(sp)) => if r > 0 { coverage_max_spec(r, sp) } else { None },
            _ => None,
        };
        if gn is Some && gd is Some && unit is Some && step is Some && span is Some && lo is Some
            && hi is Some && range is Some && first is Some && last is Some && cm is Some {
            Some(StepFrame {
                gn: gn->0 as i128,
                gd: gd->0 as i128,
                unit: unit->0 as i128,
                step: step->0 as i128,
                span: span->0 as i128,
                lo: lo->0 as i128,
                hi: hi->0 as i128,
                range: range->0 as i128,
                first: first->0 as i128,
                last: last->0 as i128,
                cm: cm->0 as i128,
            })
        } else {
            None
        }
    }


    /// The candidate with start offset `s` in family `f`, scored, or `None` when
    /// one of its quantities leaves the 128-bit range or its label leaves `i64`.
    pub open spec fn cand_spec(&self, m: int, i: int, j: int, k: int, f: StepFrame, s: int) -> Option<Cand> {
        let lmin = om(Some(s), Some(f.unit as int));
        let lmax = oa(lmin, Some(f.span as int));
        let off = om(om(Some(s % j), Some(f.gn as int)), Some(self.eps.den as int));
        let tol = om(Some(self.eps.num as int), Some(f.gd as int));
        let smin = om(Some(s), Some(f.gn as int));
        let smax = om(oa(Some(s), Some((k - 1) * j)), Some(f.gn as int));
        let sstep = om(Some(j), Some(f.gn as int));
        match (lmin, lmax, off, tol, smin, smax, sstep) {
            (Some(lo), Some(hi), Some(a), Some(b), Some(x), Some(y), Some(st)) => {
                let v = if a < b && lo <= 0 && hi >= 0 { 1int } else { 0int };
                let score = self.weigh_spec(
                    self.simplicity_spec(i, j, v),
                    coverage_spec(f.lo as int, f.hi as int, lo, hi),
                    density_spec(k, m, f.lo as int, f.hi as int, lo, hi),
                    Some(SCALE as int),
                );
                match score {
                    Some(sc) => if fits64(sc) && fits64(SCALE * SCALE * self.sden()) && fits64(x) && fits64(y) && fits64(st) && fits64(f.gd as int) {
                        Some(Cand {
                            score: sc as i128,
                            label: Label {
                                min: Ratio { num: x as i64, den: f.gd as i64 },
                                max: Ratio { num: y as i64, den: f.gd as i64 },
                                step: Ratio { num: st as i64, den: f.gd as i64 },
                                score: Ratio { num: sc as i64, den: (SCALE * SCALE * self.sden()) as i64 },
                            },
                            covers: lo <= f.lo && hi >= f.hi,
                        })
                    } else {
                        None
                    },
                    None => None,
                }
            },
            _ => None,
        }
    }

    /// The best so far after looking at candidate `c`: it replaces the best only
    /// with a strictly higher score, and, for a loose labeller, only when it
    /// contains the data.
    pub open spec fn improve(&self, best: (int, Label), c: Option<Cand>) -> (int, Label) {
        match c {
            Some(x) => if x.score > best.0 && (!self.loose || x.covers) {
                (x.score as int, x.label)
            } else {
                best
            },
            None => best,
        }
    }

    /// The best after the candidates of family `f` from start offset `s` to the last.
    pub open spec fn fold_starts(&self, m: int, i: int, j: int, k: int, f: StepFrame, best: (int, Label), s: int) -> (int, Label)
        decreases f.last + 1 - s,
    {
        if s > f.last {
            best
        } else {
            self.fold_starts(m, i, j, k, f, self.improve(best, self.cand_spec(m, i, j, k, f, s)), s + 1)
        }
    }


    /// The smallest exponent `z` with `base^z >= (dmax - dmin) / ((k + 1) * j * q_i)`,
    /// i.e. `ceil(log_base(delta))`, or `None` when the two sides leave the 128-bit range.
    pub open spec fn z_start(&self, dmin: Ratio, dmax: Ratio, i: int, j: int, k: int) -> Option<int> {
        let q = self.q@[i - 1];
        let dd = Some(common_den(dmin, dmax));
        let a0 = Some(num_lo(dmin, dmax));
        let b0 = Some(num_hi(dmin, dmax));
        let x = om(os(b0, a0), Some(q.den as int));
        let y = om(om(Some((k + 1) * j), Some(q.num as int)), dd);
        match (x, y) {
            (Some(xv), Some(yv)) => if yv >= xv {
                match fit_times(xv, yv, self.base.num as int, self.base.den as int, 128) {
                    Some(t) => Some(-t),
                    None => None,
                }
            } else {
                climb(yv, xv, self.base.num as int, self.base.den as int, 128)
            },
            _ => None,
        }
    }

    /// The best after the families of exponents `z`, `z + 1`, ... (at most `left` of them),
    /// stopping at the first whose bound is below the best score or whose common
    /// quantities leave the 128-bit range.
    pub open spec fn fold_z(
        &self,
        dmin: Ratio,
        dmax: Ratio,
        m: int,
        i: int,
        j: int,
        k: int,
        sm: Option<int>,
        dm: Option<int>,
        best: (int, Label),
        z: int,
        left: nat,
    ) -> (int, Label)
        decreases left,
    {
        if left == 0 {
            best
        } else {
            match self.frame_spec(dmin, dmax, i, j, k, z) {
                None => best,
                Some(f) => if prunes(self.weigh_spec(sm, Some(f.cm as int), dm, Some(SCALE as int)), best) {
                    best
                } else {
                    self.fold_z(
                        dmin,
                        dmax,
                        m,
                        i,
                        j,
                        k,
                        sm,
                        dm,
                        self.fold_starts(m, i, j, k, f, best, f.first as int),
                        z + 1,
                        (left - 1) as nat,
                    )
                },
            }
        }
    }

    /// The best after tick counts `k`, `k + 1`, ... (at most `left` of them), stopping
    /// at the first whose density bound makes the best score out of reach.
    pub open spec fn fold_k(&self, dmin: Ratio, dmax: Ratio, m: int, i: int, j: int, sm: Option<int>, best: (int, Label), k: int, left: nat) -> (int, Label)
        decreases left,
    {
        if left == 0 {
            best
        } else {
            let dm = density_max_spec(k, m);
            if prunes(self.weigh_spec(sm, Some(SCALE as int), dm, Some(SCALE as int)), best) {
                best
            } else {
                let next = match self.z_start(dmin, dmax, i, j, k) {
                    Some(z0) => self.fold_z(dmin, dmax, m, i, j, k, sm, dm, best, z0, EXPONENT_SPAN as nat),
                    None => best,
                };
                self.fold_k(dmin, dmax, m, i, j, sm, next, k + 1, (left - 1) as nat)
            }
        }
    }

    /// The best after multipliers `i`, `i + 1`, ... for repeat `j`, and whether the whole
    /// search stops: it does at the first multiplier whose simplicity bound makes the
    /// best score out of reach.
    pub open spec fn fold_i(&self, dmin: Ratio, dmax: Ratio, m: int, j: int, best: (int, Label), i: int) -> ((int, Label), bool)
        decreases self.q@.len() + 1 - i,
    {
        if i > self.q@.len() || i < 1 {
            (best, false)
        } else {
            let sm = self.simplicity_spec(i, j, 1);
            if prunes(self.weigh_spec(sm, Some(SCALE as int), Some(SCALE as int), Some(SCALE as int)), best) {
                (best, true)
            } else {
                self.fold_i(dmin, dmax, m, j, self.fold_k(dmin, dmax, m, i, j, sm, best, 2, (tick_limit(m) - 1) as nat), i + 1)
            }
        }
    }

    /// The best after repeats `j`, `j + 1`, ... (at most `left` of them).
    pub open spec fn fold_j(&self, dmin: Ratio, dmax: Ratio, m: int, best: (int, Label), j: int, left: nat) -> (int, Label)
        decreases left,
    {
        if left == 0 {
            best
        } else {
            let (next, stop) = self.fold_i(dmin, dmax, m, j, best, 1);
            if stop {
                next
            } else {
                self.fold_j(dmin, dmax, m, next, j + 1, (left - 1) as nat)
            }
        }
    }

    /// The label that the search returns: the first candidate, in the order repeat,
    /// multiplier, tick count, exponent, start offset, whose score is strictly above
    /// every earlier one and above -2, among those it does not prune (which, with
    /// weights that are not negative, are all of them); the zero label when there
    /// is none.
    pub open spec fn search_spec(&self, dmin: Ratio, dmax: Ratio, m: int) -> Label {
        self.fold_j(dmin, dmax, m, (self.floor_score(), zero_label()), 1, MAX_REPEAT as nat).1
    }


    /// Every family of exponents `z`, `z + 1`, ... (at most `left`), without pruning.
    pub open spec fn all_z(&self, dmin: Ratio, dmax: Ratio, m: int, i: int, j: int, k: int, best: (int, Label), z: int, left: nat) -> (int, Label)
        decreases left,
    {
        if left == 0 {
            best
        } else {
            match self.frame_spec(dmin, dmax, i, j, k, z) {
                None => best,
                Some(f) => self.all_z(dmin, dmax, m, i, j, k, self.fold_starts(m, i, j, k, f, best, f.first as int), z + 1, (left - 1) as nat),
            }
        }
    }

    /// Every tick count `k`, `k + 1`, ... (at most `left`), without pruning.
    pub open spec fn all_k(&self, dmin: Ratio, dmax: Ratio, m: int, i: int, j: int, best: (int, Label), k: int, left: nat) -> (int, Label)
        decreases left,
    {
        if left == 0 {
            best
        } else {
            let next = match self.z_start(dmin, dmax, i, j, k) {
                Some(z0) => self.all_z(dmin, dmax, m, i, j, k, best, z0, EXPONENT_SPAN as nat),
                None => best,
            };
            self.all_k(dmin, dmax, m, i, j, next, k + 1, (left - 1) as nat)
        }
    }

    /// Every multiplier from `i` on for repeat `j`, without pruning.
    pub open spec fn all_i(&self, dmin: Ratio, dmax: Ratio, m: int, j: int, best: (int, Label), i: int) -> (int, Label)
        decreases self.q@.len() + 1 - i,
    {
        if i > self.q@.len() || i < 1 {
            best
        } else {
            self.all_i(dmin, dmax, m, j, self.all_k(dmin, dmax, m, i, j, best, 2, (tick_limit(m) - 1) as nat), i + 1)
        }
    }

    /// Every repeat `j`, `j + 1`, ... (at most `left`), without pruning.
    pub open spec fn all_j(&self, dmin: Ratio, dmax: Ratio, m: int, best: (int, Label), j: int, left: nat) -> (int, Label)
        decreases left,
    {
        if left == 0 {
            best
        } else {
            self.all_j(dmin, dmax, m, self.all_i(dmin, dmax, m, j, best, 1), j + 1, (left - 1) as nat)
        }
    }

    /// The label of the same search with no bound tested: every candidate up to the
    /// same limits on `j`, `k` and `z` is scored, and the first with the highest score
    /// above -2 wins.
    pub open spec fn exhaustive_spec(&self, dmin: Ratio, dmax: Ratio, m: int) -> Label {
        self.all_j(dmin, dmax, m, (self.floor_score(), zero_label()), 1, MAX_REPEAT as nat).1
    }

    /// The weighted bound over plain integers.
    pub open spec fn cap(&self, s: int, c: int, d: int) -> int {
        self.w@[0] * SCALE * s + self.sden() * (self.w@[1] * c + self.w@[2] * d + self.w@[3] * SCALE)
    }

    /// The denominator of the exact simplicity: `n - 1` for `n > 1` multipliers, else 1.
    /// Scores are integers in units of `1 / (SCALE * SCALE * sden)`.
    pub open spec fn sden(&self) -> int {
        if self.q@.len() > 1 {
            self.q@.len() - 1
        } else {
            1
        }
    }

    /// The score below which no candidate is taken: -2.
    pub open spec fn floor_score(&self) -> int {
        -2 * SCALE * SCALE * self.sden()
    }

    pub open spec fn weights_nonneg(&self) -> bool {
        forall|t: int| 0 <= t < 4 ==> self.w@[t] >= 0
    }

    /// `w0 * s + w1 * c + w2 * d + w3 * l` for simplicity `s / sden` and the other
    /// criteria in millionths, in units of `1 / (SCALE * SCALE * sden)`:
    /// `w0 * SCALE * s + sden * (w1 * c + w2 * d + w3 * l)`.
    pub open spec fn weigh_spec(&self, s: Option<int>, c: Option<int>, d: Option<int>, l: Option<int>) -> Option<int> {
        oa(
            om(om(Some(self.w@[0] as int), Some(SCALE as int)), s),
            om(
                Some(self.sden()),
                oa(
                    oa(om(Some(self.w@[1] as int), c), om(Some(self.w@[2] as int), d)),
                    om(Some(self.w@[3] as int), l),
                ),
            ),
        )
    }

    /// Simplicity of the `i`-th preferred multiplier (counted from 1) repeated `j` times,
    /// with `v = 1` when zero is one of the ticks, `1 - i / (n - 1) - j + v`, exactly, as
    /// a multiple of `1 / sden`: `(1 - j + v) * (n - 1) - i`, or `1 - j + v` for `n <= 1`.
    pub open spec fn simplicity_spec(&self, i: int, j: int, v: int) -> Option<int> {
        let n = self.q@.len() as int;
        let base = os(Some(1 + v), Some(j));
        if n > 1 {
            os(om(base, Some(n - 1)), Some(i))
        } else {
            base
        }
    }

    pub fn new(q: Vec<Ratio>, base: Ratio, w: Vec<i64>, eps: Ratio) -> (r: Labeller)
        requires
            forall|t: int| 0 <= t < q@.len() ==> (#[trigger] q@[t]).positive(),
            base.den > 0,
            base.num > base.den,
            w@.len() == 4,
            eps.num > 0,
            eps.den > 0,
        ensures
            r.wf(),
            r.preferred() == q@,
            r.base_spec() == base,
            r.weights() == w@,
            r.tolerance() == eps,
            !r.loose,
    {
        let n = q.len();
        assert(q@.len() == n);
        Labeller { q, base, w, eps, loose: false }
    }


    /// A labeller over the given multipliers and base, with the usual weights
    /// (0.25, 0.2, 0.5, 0.05) and a tolerance of 1e-10.
    pub fn using_base(q: Vec<Ratio>, base: Ratio) -> (r: Labeller)
        requires
            forall|t: int| 0 <= t < q@.len() ==> (#[trigger] q@[t]).positive(),
            base.den > 0,
            base.num > base.den,
        ensures
            r.wf(),
            r.preferred() == q@,
            r.base_spec() == base,
            r.weights() == seq![250_000i64, 200_000, 500_000, 50_000],
            r.tolerance() == (Ratio { num: 1, den: 10_000_000_000 }),
            !r.loose,
    {
        let w = vec![250_000i64, 200_000, 500_000, 50_000];
        assert(w@ == seq![250_000i64, 200_000, 500_000, 50_000]);
        Labeller::new(q, base, w, Ratio::new(1, 10_000_000_000))
    }

    /// The labeller of decimal axes: multipliers 1, 5, 2, 2.5, 4, 3 in that order, base 10.
    pub fn in_base10() -> (r: Labeller)
        ensures
            r.wf(),
            r.preferred() == seq![
                Ratio { num: 1, den: 1 },
                Ratio { num: 5, den: 1 },
                Ratio { num: 2, den: 1 },
                Ratio { num: 5, den: 2 },
                Ratio { num: 4, den: 1 },
                Ratio { num: 3, den: 1 },
            ],
            r.base_spec() == (Ratio { num: 10, den: 1 }),
            r.weights() == seq![250_000i64, 200_000, 500_000, 50_000],
            r.tolerance() == (Ratio { num: 1, den: 10_000_000_000 }),
            !r.loose,
    {
        let q = vec![
            Ratio::from_int(1),
            Ratio::from_int(5),
            Ratio::from_int(2),
            Ratio::new(5, 2),
            Ratio::from_int(4),
            Ratio::from_int(3),
        ];
        assert(q@ == seq![
            Ratio { num: 1, den: 1 },
            Ratio { num: 5, den: 1 },
            Ratio { num: 2, den: 1 },
            Ratio { num: 5, den: 2 },
            Ratio { num: 4, den: 1 },
            Ratio { num: 3, den: 1 },
        ]);
        Labeller::using_base(q, Ratio::from_int(10))
    }

    /// The weighted bound of simplicity `s`, coverage `c`, density `d` and full
    /// legibility; `None` when one of them or the sum is missing.
    fn bound(&self, s: Option<i128>, c: Option<i128>, d: Option<i128>) -> (r: Option<i128>)
        requires
            self.wf(),
        ensures
            lift(r) == self.weigh_spec(lift(s), lift(c), lift(d), Some(SCALE as int)),
    {
        match (s, c, d) {
            (Some(sv), Some(cv), Some(dv)) => self.weigh(sv, cv, dv, SCALE),
            _ => None,
        }
    }

    fn sden_exec(&self) -> (r: i128)
        requires
            self.wf(),
        ensures
            r == self.sden(),
            1 <= r <= usize::MAX,
    {
        let n = self.q.len() as i128;
        if n > 1 {
            n - 1
        } else {
            1
        }
    }

    fn weigh(&self, s: i128, c: i128, d: i128, l: i128) -> (r: Option<i128>)
        requires
            self.wf(),
        ensures
            lift(r) == self.weigh_spec(Some(s as int), Some(c as int), Some(d as int), Some(l as int)),
    {
        let sd = self.sden_exec();
        let ws = mul_checked(self.w[0] as i128, SCALE);
        let w1 = mul_checked(self.w[1] as i128, c);
        let w2 = mul_checked(self.w[2] as i128, d);
        let w3 = mul_checked(self.w[3] as i128, l);
        let (Some(ws), Some(a1), Some(a2), Some(a3)) = (ws, w1, w2, w3) else {
            return None;
        };
        let Some(a0) = mul_checked(ws, s) else {
            return None;
        };
        let Some(t) = add_checked(a1, a2) else {
            return None;
        };
        let Some(t) = add_checked(t, a3) else {
            return None;
        };
        let Some(t) = mul_checked(sd, t) else {
            return None;
        };
        add_checked(a0, t)
    }

    /// Simplicity of multiplier `i` repeated `j` times, `v` being 1 when zero is a tick.
    fn simplicity(&self, i: i128, j: i128, v: i128) -> (r: Option<i128>)
        requires
            self.wf(),
            0 <= v <= 1,
            1 <= j <= MAX_REPEAT,
        ensures
            lift(r) == self.simplicity_spec(i as int, j as int, v as int),
    {
        let n = self.q.len() as i128;
        let Some(b) = sub_checked(1 + v, j) else {
            return None;
        };
        if n > 1 {
            let Some(t) = mul_checked(b, n - 1) else {
                return None;
            };
            sub_checked(t, i)
        } else {
            Some(b)
        }
    }

    /// Simplicity bound: the simplicity reached when zero is a tick.
    fn simplicity_max(&self, i: i128, j: i128) -> (r: Option<i128>)
        requires
            self.wf(),
            1 <= j <= MAX_REPEAT,
        ensures
            lift(r) == self.simplicity_spec(i as int, j as int, 1),
    {
        self.simplicity(i, j, 1)
    }


    #[verifier::rlimit(50)]
    fn frame(&self, dmin: &Ratio, dmax: &Ratio, i: usize, j: i128, k: i128, z: i128) -> (r: Option<StepFrame>)
        requires
            self.wf(),
            dmin.wf(),
            dmax.wf(),
            below(*dmin, *dmax),
            1 <= i <= self.q@.len(),
            1 <= j <= MAX_REPEAT,
            tick_ok(k as int),
            -1000 <= z <= 1000,
        ensures
            r == self.frame_spec(*dmin, *dmax, i as int, j as int, k as int, z as int),
            r matches Some(f) ==> f.good(),
    {
        let q = self.q[i - 1];
        proof {
            assert(self.q@[i - 1].positive());
        }
        let t: i128 = if z >= 0 { z } else { -z };
        assert(vstd::math::abs(z as int) == t as nat);
        let Some(pn) = power(self.base.num as i128, t) else {
            return None;
        };
        let Some(pd) = power(self.base.den as i128, t) else {
            return None;
        };
        proof {
            lemma_opow_positive(self.base.num as int, t as nat);
            lemma_opow_positive(self.base.den as int, t as nat);
        }
        let (up, down) = if z >= 0 { (pn, pd) } else { (pd, pn) };
        let Some(gn) = mul_checked(q.num as i128, up) else {
            return None;
        };
        let Some(gd) = mul_checked(q.den as i128, down) else {
            return None;
        };
        proof {
            assert(gn > 0 && gd > 0) by (nonlinear_arith)
                requires
                    gn == q.num * up,
                    gd == q.den * down,
                    q.num > 0,
                    q.den > 0,
                    up > 0,
                    down > 0,
            ;
        }
        let (dd, a0, b0) = over_common(dmin, dmax);
        proof {
            lemma_common(*dmin, *dmax);
        }
        let Some(unit) = mul_checked(gn, dd) else {
            return None;
        };
        let Some(step) = mul_checked(j, unit) else {
            return None;
        };
        let Some(span) = mul_checked(k - 1, step) else {
            return None;
        };
        let Some(lo) = mul_checked(a0, gd) else {
            return None;
        };
        let Some(hi) = mul_checked(b0, gd) else {
            return None;
        };
        let Some(range) = sub_checked(hi, lo) else {
            return None;
        };
        proof {
            assert(unit > 0 && step > 0 && span > 0 && lo < hi) by (nonlinear_arith)
                requires
                    dd > 0,
                    unit == gn * dd,
                    gn > 0,
                    step == j * unit,
                    j >= 1,
                    span == (k - 1) * step,
                    k >= 2,
                    lo == a0 * gd,
                    hi == b0 * gd,
                    gd > 0,
                    a0 < b0,
            ;
        }
        let Some(fl) = floor_div(hi, step) else {
            return None;
        };
        assert(0 <= (k - 1) * j <= 200_000_000_000) by (nonlinear_arith)
            requires
                1 <= k - 1 <= 9_000_000_000,
                1 <= j <= MAX_REPEAT,
        ;
        let Some(first) = sub_checked(fl, (k - 1) * j) else {
            return None;
        };
        let Some(neg) = sub_checked(0, lo) else {
            return None;
        };
        let Some(fl2) = floor_div(neg, unit) else {
            return None;
        };
        let Some(last) = sub_checked(0, fl2) else {
            return None;
        };
        let Some(cm) = to_fixed_exec(coverage_max(range, span)) else {
            return None;
        };
        Some(StepFrame { gn, gd, unit, step, span, lo, hi, range, first, last, cm })
    }


    fn candidate(&self, m: i128, i: usize, j: i128, k: i128, f: &StepFrame, s: i128) -> (r: Option<Cand>)
        requires
            self.wf(),
            f.good(),
            1 <= i <= self.q@.len(),
            1 <= j <= MAX_REPEAT,
            tick_ok(k as int),
            2 <= m <= i32::MAX,
        ensures
            r == self.cand_spec(m as int, i as int, j as int, k as int, *f, s as int),
    {
        let Some(lmin) = mul_checked(s, f.unit) else {
            return None;
        };
        let Some(lmax) = add_checked(lmin, f.span) else {
            return None;
        };
        let rem = floor_rem(s, j);
        let Some(off) = mul_checked(rem, f.gn) else {
            return None;
        };
        let Some(off) = mul_checked(off, self.eps.den as i128) else {
            return None;
        };
        let Some(tol) = mul_checked(self.eps.num as i128, f.gd) else {
            return None;
        };
        let Some(smin) = mul_checked(s, f.gn) else {
            return None;
        };
        assert(0 <= (k - 1) * j <= 200_000_000_000) by (nonlinear_arith)
            requires
                1 <= k - 1 <= 9_000_000_000,
                1 <= j <= MAX_REPEAT,
        ;
        let Some(top) = add_checked(s, (k - 1) * j) else {
            return None;
        };
        let Some(smax) = mul_checked(top, f.gn) else {
            return None;
        };
        let Some(sstep) = mul_checked(j, f.gn) else {
            return None;
        };
        let v: i128 = if off < tol && lmin <= 0 && lmax >= 0 { 1 } else { 0 };
        let Some(simp) = self.simplicity(i as i128, j, v) else {
            return None;
        };
        let Some(cov) = to_fixed_exec(coverage(f.lo, f.hi, lmin, lmax)) else {
            return None;
        };
        proof {
            assert(lmin < lmax);
        }
        let Some(den) = to_fixed_exec(density(k, m, f.lo, f.hi, lmin, lmax)) else {
            return None;
        };
        let Some(score) = self.weigh(simp, cov, den, self.legibility()) else {
            return None;
        };
        let sd = self.sden_exec();
        assert(SCALE * SCALE * sd <= 0x1_0000_0000_0000_0000 * 1_000_000_000_000) by (nonlinear_arith)
            requires
                1 <= sd <= 0x1_0000_0000_0000_0000,
        ;
        let sden = SCALE * SCALE * sd;
        if i64::MIN as i128 <= score && score <= i64::MAX as i128 && sden <= i64::MAX as i128 && i64::MIN as i128 <= smin && smin <= i64::MAX as i128
            && i64::MIN as i128 <= smax && smax <= i64::MAX as i128 && i64::MIN as i128 <= sstep && sstep
            <= i64::MAX as i128 && f.gd <= i64::MAX as i128 {
            Some(Cand {
                score,
                label: Label {
                    min: Ratio { num: smin as i64, den: f.gd as i64 },
                    max: Ratio { num: smax as i64, den: f.gd as i64 },
                    step: Ratio { num: sstep as i64, den: f.gd as i64 },
                    score: Ratio { num: score as i64, den: sden as i64 },
                },
                covers: lmin <= f.lo && lmax >= f.hi,
            })
        } else {
            None
        }
    }

    /// Scores the start offsets of family `f` in ascending order.
    fn scan_starts(&self, m: i128, i: usize, j: i128, k: i128, f: &StepFrame, best_score: i128, best: Label) -> (r: (i128, Label))
        requires
            self.wf(),
            f.good(),
            1 <= i <= self.q@.len(),
            1 <= j <= MAX_REPEAT,
            tick_ok(k as int),
            2 <= m <= i32::MAX,
        ensures
            (r.0 as int, r.1) == self.fold_starts(m as int, i as int, j as int, k as int, *f, (best_score as int, best), f.first as int),
    {
        let ghost target = self.fold_starts(m as int, i as int, j as int, k as int, *f, (best_score as int, best), f.first as int);
        let mut bs = best_score;
        let mut b = best;
        if f.first > f.last {
            return (bs, b);
        }
        let mut s = f.first;
        loop
            invariant
                self.wf(),
                f.good(),
                1 <= i <= self.q@.len(),
                1 <= j <= MAX_REPEAT,
                tick_ok(k as int),
                2 <= m <= i32::MAX,
                f.first <= s <= f.last,
                self.fold_starts(m as int, i as int, j as int, k as int, *f, (bs as int, b), s as int) == target,
                target == self.fold_starts(m as int, i as int, j as int, k as int, *f, (best_score as int, best), f.first as int),
            decreases f.last - s,
        {
            let c = self.candidate(m, i, j, k, f, s);
            let ghost before = (bs as int, b);
            match c {
                Some(x) => {
                    if x.score > bs && (!self.loose || x.covers) {
                        bs = x.score;
                        b = x.label;
                    }
                },
                None => {},
            }
            assert((bs as int, b) == self.improve(before, c));
            assert(self.fold_starts(m as int, i as int, j as int, k as int, *f, before, s as int) == self.fold_starts(
                m as int,
                i as int,
                j as int,
                k as int,
                *f,
                (bs as int, b),
                s + 1,
            ));
            if s == f.last {
                assert(self.fold_starts(m as int, i as int, j as int, k as int, *f, (bs as int, b), s + 1) == (bs as int, b));
                return (bs, b);
            }
            s = s + 1;
        }
    }


    fn z_start_exec(&self, dmin: &Ratio, dmax: &Ratio, i: usize, j: i128, k: i128) -> (r: Option<i128>)
        requires
            self.wf(),
            dmin.wf(),
            dmax.wf(),
            below(*dmin, *dmax),
            1 <= i <= self.q@.len(),
            1 <= j <= MAX_REPEAT,
            tick_ok(k as int),
        ensures
            lift(r) == self.z_start(*dmin, *dmax, i as int, j as int, k as int),
            r matches Some(z) ==> -128 <= z <= 128,
    {
        let q = self.q[i - 1];
        proof {
            assert(self.q@[i - 1].positive());
        }
        let (dd, a0, b0) = over_common(dmin, dmax);
        proof {
            lemma_common(*dmin, *dmax);
        }
        let Some(r0) = sub_checked(b0, a0) else {
            return None;
        };
        let Some(x) = mul_checked(r0, q.den as i128) else {
            return None;
        };
        assert(1 <= (k + 1) * j <= 200_000_000_000) by (nonlinear_arith)
            requires
                3 <= k + 1 <= 9_000_000_000,
                1 <= j <= MAX_REPEAT,
        ;
        let Some(y) = mul_checked((k + 1) * j, q.num as i128) else {
            return None;
        };
        let Some(y) = mul_checked(y, dd) else {
            return None;
        };
        proof {
            assert(x > 0 && y > 0) by (nonlinear_arith)
                requires
                    x == r0 * q.den,
                    r0 == b0 - a0,
                    a0 < b0,
                    q.den > 0,
                    q.num > 0,
                    y == ((k + 1) * j) * q.num * dd,
                    (k + 1) * j >= 1,
                    dd > 0,
            ;
        }
        if y >= x {
            match fit_times_exec(x, y, self.base.num as i128, self.base.den as i128) {
                Some(t) => Some(-t),
                None => None,
            }
        } else {
            climb_exec(y, x, self.base.num as i128, self.base.den as i128)
        }
    }

    /// Scores the families of exponents `z0`, `z0 + 1`, ... until one is pruned.
    fn scan_exponents(
        &self,
        dmin: &Ratio,
        dmax: &Ratio,
        m: i128,
        i: usize,
        j: i128,
        k: i128,
        sm: Option<i128>,
        dm: Option<i128>,
        z0: i128,
        best_score: i128,
        best: Label,
    ) -> (r: (i128, Label))
        requires
            self.wf(),
            dmin.wf(),
            dmax.wf(),
            below(*dmin, *dmax),
            1 <= i <= self.q@.len(),
            1 <= j <= MAX_REPEAT,
            tick_ok(k as int),
            2 <= m <= i32::MAX,
            -128 <= z0 <= 128,
        ensures
            (r.0 as int, r.1) == self.fold_z(
                *dmin,
                *dmax,
                m as int,
                i as int,
                j as int,
                k as int,
                lift(sm),
                lift(dm),
                (best_score as int, best),
                z0 as int,
                EXPONENT_SPAN as nat,
            ),
    {
        let ghost target = self.fold_z(
            *dmin,
            *dmax,
            m as int,
            i as int,
            j as int,
            k as int,
            lift(sm),
            lift(dm),
            (best_score as int, best),
            z0 as int,
            EXPONENT_SPAN as nat,
        );
        let mut bs = best_score;
        let mut b = best;
        let mut z = z0;
        let mut left: i128 = EXPONENT_SPAN;
        while left > 0
            invariant
                self.wf(),
                dmin.wf(),
                dmax.wf(),
                below(*dmin, *dmax),
                1 <= i <= self.q@.len(),
                1 <= j <= MAX_REPEAT,
                tick_ok(k as int),
                2 <= m <= i32::MAX,
                0 <= left <= EXPONENT_SPAN,
                z == z0 + (EXPONENT_SPAN - left),
                -128 <= z0 <= 128,
                self.fold_z(*dmin, *dmax, m as int, i as int, j as int, k as int, lift(sm), lift(dm), (bs as int, b), z as int, left as nat)
                    == target,
                target == self.fold_z(
                    *dmin,
                    *dmax,
                    m as int,
                    i as int,
                    j as int,
                    k as int,
                    lift(sm),
                    lift(dm),
                    (best_score as int, best),
                    z0 as int,
                    EXPONENT_SPAN as nat,
                ),
            decreases left,
        {
            let Some(f) = self.frame(dmin, dmax, i, j, k, z) else {
                return (bs, b);
            };
            if let Some(bd) = self.bound(sm, Some(f.cm), dm) {
                if bd < bs {
                    return (bs, b);
                }
            }
            let (nbs, nb) = self.scan_starts(m, i, j, k, &f, bs, b);
            bs = nbs;
            b = nb;
            z = z + 1;
            left = left - 1;
        }
        (bs, b)
    }

    /// Scores tick counts `k = 2, 3, ...` for multiplier `i` and repeat `j` until one is pruned.
    fn scan_ticks(&self, dmin: &Ratio, dmax: &Ratio, m: i128, i: usize, j: i128, sm: Option<i128>, best_score: i128, best: Label) -> (r: (
        i128,
        Label,
    ))
        requires
            self.wf(),
            dmin.wf(),
            dmax.wf(),
            below(*dmin, *dmax),
            1 <= i <= self.q@.len(),
            1 <= j <= MAX_REPEAT,
            2 <= m <= i32::MAX,
        ensures
            (r.0 as int, r.1) == self.fold_k(
                *dmin,
                *dmax,
                m as int,
                i as int,
                j as int,
                lift(sm),
                (best_score as int, best),
                2,
                (tick_limit(m as int) - 1) as nat,
            ),
    {
        let ghost target = self.fold_k(
            *dmin,
            *dmax,
            m as int,
            i as int,
            j as int,
            lift(sm),
            (best_score as int, best),
            2,
            (tick_limit(m as int) - 1) as nat,
        );
        let mut bs = best_score;
        let mut b = best;
        let mut k: i128 = 2;
        let mut left: i128 = 4 * m + MAX_TICKS - 1;
        while left > 0
            invariant
                self.wf(),
                dmin.wf(),
                dmax.wf(),
                below(*dmin, *dmax),
                1 <= i <= self.q@.len(),
                1 <= j <= MAX_REPEAT,
                2 <= m <= i32::MAX,
                0 <= left <= tick_limit(m as int) - 1,
                k == 2 + (tick_limit(m as int) - 1 - left),
                self.fold_k(*dmin, *dmax, m as int, i as int, j as int, lift(sm), (bs as int, b), k as int, left as nat) == target,
                target == self.fold_k(
                    *dmin,
                    *dmax,
                    m as int,
                    i as int,
                    j as int,
                    lift(sm),
                    (best_score as int, best),
                    2,
                    (tick_limit(m as int) - 1) as nat,
                ),
            decreases left,
        {
            let dm = to_fixed_exec(density_max(k, m));
            if let Some(bd) = self.bound(sm, Some(SCALE), dm) {
                if bd < bs {
                    return (bs, b);
                }
            }
            match self.z_start_exec(dmin, dmax, i, j, k) {
                Some(z0) => {
                    let (nbs, nb) = self.scan_exponents(dmin, dmax, m, i, j, k, sm, dm, z0, bs, b);
                    bs = nbs;
                    b = nb;
                },
                None => {},
            }
            k = k + 1;
            left = left - 1;
        }
        (bs, b)
    }

    /// Scores the multipliers in order for repeat `j`; the flag tells whether the
    /// whole search stops.
    fn scan_multipliers(&self, dmin: &Ratio, dmax: &Ratio, m: i128, j: i128, best_score: i128, best: Label) -> (r: (
        i128,
        Label,
        bool,
    ))
        requires
            self.wf(),
            dmin.wf(),
            dmax.wf(),
            below(*dmin, *dmax),
            1 <= j <= MAX_REPEAT,
            2 <= m <= i32::MAX,
        ensures
            ((r.0 as int, r.1), r.2) == self.fold_i(*dmin, *dmax, m as int, j as int, (best_score as int, best), 1),
    {
        let ghost target = self.fold_i(*dmin, *dmax, m as int, j as int, (best_score as int, best), 1);
        let mut bs = best_score;
        let mut b = best;
        let mut idx: usize = 0;
        while idx < self.q.len()
            invariant
                self.wf(),
                dmin.wf(),
                dmax.wf(),
                below(*dmin, *dmax),
                1 <= j <= MAX_REPEAT,
                2 <= m <= i32::MAX,
                0 <= idx <= self.q@.len(),
                self.fold_i(*dmin, *dmax, m as int, j as int, (bs as int, b), idx + 1) == target,
                target == self.fold_i(*dmin, *dmax, m as int, j as int, (best_score as int, best), 1),
            decreases self.q@.len() - idx,
        {
            let i = idx + 1;
            let sm = self.simplicity_max(i as i128, j);
            if let Some(bd) = self.bound(sm, Some(SCALE), Some(SCALE)) {
                if bd < bs {
                    return (bs, b, true);
                }
            }
            let (nbs, nb) = self.scan_ticks(dmin, dmax, m, i, j, sm, bs, b);
            bs = nbs;
            b = nb;
            idx = idx + 1;
        }
        (bs, b, false)
    }

    /// Searches for the best label of the data range `[dmin, dmax]` with about `m` ticks.
    /// It tries repeats `j` up to `MAX_REPEAT`, tick counts `k` up to `4 * m + MAX_TICKS`,
    /// and `EXPONENT_SPAN` exponents from the smallest admissible one: limits that
    /// only stop a walk which the pruning bounds have not ended (see `laws`).
    /// The bounds are put over their least common denominator first. The zero label
    /// comes back when no candidate of the walk that may win scores above -2, a
    /// candidate whose quantities leave the 128-bit range being passed over
    /// (`laws::lemma_search_first` states which candidate wins otherwise).
    pub fn search(&self, dmin: Ratio, dmax: Ratio, m: i32) -> (r: Label)
        requires
            self.wf(),
            dmin.wf(),
            dmax.wf(),
            below(dmin, dmax),
            m >= 2,
        ensures
            r == self.search_spec(dmin, dmax, m as int),
    {
        let ghost target = self.fold_j(dmin, dmax, m as int, (self.floor_score(), zero_label()), 1, MAX_REPEAT as nat);
        let sd = self.sden_exec();
        let low: i128 = -2 * SCALE * SCALE;
        assert(i128::MIN <= low * sd <= 0) by (nonlinear_arith)
            requires
                1 <= sd <= 0x1_0000_0000_0000_0000,
                low == -2_000_000_000_000,
        ;
        let mut bs: i128 = low * sd;
        let mut b = Label::new();
        let mut j: i128 = 1;
        let mut left: i128 = MAX_REPEAT;
        while left > 0
            invariant
                self.wf(),
                dmin.wf(),
                dmax.wf(),
                below(dmin, dmax),
                2 <= m,
                0 <= left <= MAX_REPEAT,
                j == 1 + (MAX_REPEAT - left),
                self.fold_j(dmin, dmax, m as int, (bs as int, b), j as int, left as nat) == target,
                target == self.fold_j(dmin, dmax, m as int, (self.floor_score(), zero_label()), 1, MAX_REPEAT as nat),
            decreases left,
        {
            let (nbs, nb, stop) = self.scan_multipliers(&dmin, &dmax, m as i128, j, bs, b);
            bs = nbs;
            b = nb;
            if stop {
                return b;
            }
            j = j + 1;
            left = left - 1;
        }
        b
    }

    /// Legibility, a constant criterion for now.
    fn legibility(&self) -> (r: i128)
        ensures
            r == SCALE,
    {
        SCALE
    }
}


pub proof fn lemma_opow_positive(b: int, t: nat)
    requires
        b >= 1,
    ensures
        opow(b, t) matches Some(p) ==> p >= 1,
    decreases t,
{
    if t > 0 {
        lemma_opow_positive(b, (t - 1) as nat);
        if let Some(p) = opow(b, (t - 1) as nat) {
            assert(p * b >= 1) by (nonlinear_arith)
                requires
                    p >= 1,
                    b >= 1,
            ;
        }
    }
}

proof fn lemma_opow_none_stays(b: int, e: nat, t: nat)
    requires
        e <= t,
        opow(b, e) is None,
    ensures
        opow(b, t) is None,
    decreases t - e,
{
    if e < t {
        lemma_opow_none_stays(b, e, (t - 1) as nat);
    }
}

/// `b^t`, or `None` when it leaves the 128-bit range.
fn power(b: i128, t: i128) -> (r: Option<i128>)
    requires
        b >= 1,
        t >= 0,
    ensures
        lift(r) == opow(b as int, t as nat),
{
    let mut p: i128 = 1;
    let mut e: i128 = 0;
    while e < t
        invariant
            0 <= e <= t,
            opow(b as int, e as nat) == Some(p as int),
        decreases t - e,
    {
        let np = mul_checked(p, b);
        match np {
            Some(v) => {
                p = v;
                e = e + 1;
            },
            None => {
                proof {
                    lemma_opow_none_stays(b as int, (e + 1) as nat, t as nat);
                }
                return None;
            },
        }
    }
    Some(p)
}


/// `a mod b` (the floored remainder) for a positive `b`.
fn floor_rem(a: i128, b: i128) -> (r: i128)
    requires
        b > 0,
    ensures
        r == a % b,
{
    proof {
        vstd::arithmetic::div_mod::lemma_mod_bound(a as int, b as int);
    }
    a.checked_rem_euclid(b).unwrap()
}


/// How many times `p0` is multiplied by `a` and `lim0` by `c` before `p0 >= lim0`.
fn climb_exec(p0: i128, lim0: i128, a: i128, c: i128) -> (r: Option<i128>)
    ensures
        lift(r) == climb(p0 as int, lim0 as int, a as int, c as int, 128),
        r matches Some(t) ==> 0 <= t <= 128,
{
    let mut p = p0;
    let mut lim = lim0;
    let mut fuel: i128 = 128;
    while fuel > 0 && p < lim
        invariant
            0 <= fuel <= 128,
            climb(p0 as int, lim0 as int, a as int, c as int, 128) == shift(
                climb(p as int, lim as int, a as int, c as int, fuel as nat),
                128 - fuel,
            ),
        decreases fuel,
    {
        let (Some(np), Some(nl)) = (mul_checked(p, a), mul_checked(lim, c)) else {
            return None;
        };
        p = np;
        lim = nl;
        fuel = fuel - 1;
    }
    Some(128 - fuel)
}

/// How many times `p0` can be multiplied by `a` and `lim0` by `c` with `p0 <= lim0` kept.
fn fit_times_exec(p0: i128, lim0: i128, a: i128, c: i128) -> (r: Option<i128>)
    ensures
        lift(r) == fit_times(p0 as int, lim0 as int, a as int, c as int, 128),
        r matches Some(t) ==> 0 <= t <= 128,
{
    let mut p = p0;
    let mut lim = lim0;
    let mut fuel: i128 = 128;
    while fuel > 0
        invariant
            0 <= fuel <= 128,
            fit_times(p0 as int, lim0 as int, a as int, c as int, 128) == shift(
                fit_times(p as int, lim as int, a as int, c as int, fuel as nat),
                128 - fuel,
            ),
        decreases fuel,
    {
        let (Some(np), Some(nl)) = (mul_checked(p, a), mul_checked(lim, c)) else {
            return None;
        };
        if np > nl {
            return Some(128 - fuel);
        }
        p = np;
        lim = nl;
        fuel = fuel - 1;
    }
    Some(128 - fuel)
}

fn two_minus_exec(x: i128, y: i128) -> (r: Option<(i128, i128)>)
    requires
        y > 0,
    ensures
        lift2(r) == two_minus_q(Some(x as int), Some(y as int)),
        r matches Some(q) ==> q.1 > 0,
{
    let Some(t) = mul_checked(2, y) else {
        return None;
    };
    let Some(t) = sub_checked(t, x) else {
        return None;
    };
    Some((t, y))
}

/// `n / d` rounded down to millionths.
fn to_fixed_exec(q: Option<(i128, i128)>) -> (r: Option<i128>)
    requires
        q matches Some(v) ==> v.1 > 0,
    ensures
        lift(r) == to_fixed(lift2(q)),
{
    match q {
        Some((n, d)) => {
            let Some(t) = mul_checked(SCALE, n) else {
                return None;
            };
            floor_div(t, d)
        },
        None => None,
    }
}

/// The density bound for `k` ticks when `m` are wanted: `2 - (k - 1) / (m - 1)` for
/// `k >= m`, else 1, as an exact numerator and denominator.
fn density_max(k: i128, m: i128) -> (r: Option<(i128, i128)>)
    requires
        tick_ok(k as int),
        2 <= m <= i32::MAX,
    ensures
        lift2(r) == density_max_q(k as int, m as int),
        r matches Some(q) ==> q.1 > 0,
        r matches Some(q) ==> (k >= m ==> q.0 == 2 * (m - 1) - (k - 1) && q.1 == m - 1) && (k < m ==> q.0 == 1 && q.1 == 1),
{
    if k >= m {
        two_minus_exec(k - 1, m - 1)
    } else {
        Some((1, 1))
    }
}

/// Coverage of `[dmin, dmax]` by `[lmin, lmax]`:
/// `1 - 0.5 * ((dmax - lmax)^2 + (dmin - lmin)^2) / (0.1 * (dmax - dmin))^2`, exactly.
fn coverage(dmin: i128, dmax: i128, lmin: i128, lmax: i128) -> (r: Option<(i128, i128)>)
    requires
        dmin < dmax,
    ensures
        lift2(r) == coverage_q(dmin as int, dmax as int, lmin as int, lmax as int),
        r matches Some(q) ==> q.1 > 0 && q.1 == (dmax - dmin) * (dmax - dmin) && q.0 == (dmax - dmin) * (dmax - dmin) - 50 * (
        (dmax - lmax) * (dmax - lmax) + (dmin - lmin) * (dmin - lmin)),
{
    let Some(a) = sub_checked(dmax, lmax) else {
        return None;
    };
    let Some(b) = sub_checked(dmin, lmin) else {
        return None;
    };
    let Some(rg) = sub_checked(dmax, dmin) else {
        return None;
    };
    let Some(r2) = mul_checked(rg, rg) else {
        return None;
    };
    let Some(a2) = mul_checked(a, a) else {
        return None;
    };
    let Some(b2) = mul_checked(b, b) else {
        return None;
    };
    let Some(sq) = add_checked(a2, b2) else {
        return None;
    };
    let Some(pen) = mul_checked(50, sq) else {
        return None;
    };
    let Some(t) = sub_checked(r2, pen) else {
        return None;
    };
    proof {
        assert(r2 > 0) by (nonlinear_arith)
            requires
                r2 == rg * rg,
                rg > 0,
        ;
    }
    Some((t, r2))
}

/// The coverage bound for a label range of length `span` over data of length `range`:
/// `1 - ((span - range) / 2)^2 / (0.1 * range)^2` when `span > range`, else 1, exactly.
fn coverage_max(range: i128, span: i128) -> (r: Option<(i128, i128)>)
    requires
        range > 0,
    ensures
        lift2(r) == coverage_max_q(range as int, span as int),
        r matches Some(q) ==> q.1 > 0 && (span > range ==> q.1 == range * range && q.0 == range * range - 25 * ((span - range)
            * (span - range))) && (span <= range ==> q.0 == 1 && q.1 == 1),
{
    if span > range {
        let Some(r2) = mul_checked(range, range) else {
            return None;
        };
        let Some(e) = sub_checked(span, range) else {
            return None;
        };
        let Some(e2) = mul_checked(e, e) else {
            return None;
        };
        let Some(pen) = mul_checked(25, e2) else {
            return None;
        };
        let Some(t) = sub_checked(r2, pen) else {
            return None;
        };
        proof {
            assert(r2 > 0) by (nonlinear_arith)
                requires
                    r2 == range * range,
                    range > 0,
            ;
        }
        Some((t, r2))
    } else {
        Some((1, 1))
    }
}

/// Density of `k` ticks on `[lmin, lmax]` against `m` wanted over `[dmin, dmax]`:
/// `2 - max(r / rt, rt / r)` with `r = (k - 1) / (lmax - lmin)` and
/// `rt = (m - 1) / (max(lmax, dmax) - min(lmin, dmin))`, exactly.
fn density(k: i128, m: i128, dmin: i128, dmax: i128, lmin: i128, lmax: i128) -> (r: Option<(i128, i128)>)
    requires
        tick_ok(k as int),
        2 <= m <= i32::MAX,
        dmin < dmax,
        lmin < lmax,
    ensures
        lift2(r) == density_q(k as int, m as int, dmin as int, dmax as int, lmin as int, lmax as int),
        r matches Some(q) ==> q.1 > 0,
{
    let hi = if lmax >= dmax { lmax } else { dmax };
    let lo = if lmin <= dmin { lmin } else { dmin };
    let Some(ext) = sub_checked(hi, lo) else {
        return None;
    };
    let Some(x) = mul_checked(k - 1, ext) else {
        return None;
    };
    let Some(len) = sub_checked(lmax, lmin) else {
        return None;
    };
    let Some(y) = mul_checked(m - 1, len) else {
        return None;
    };
    proof {
        assert(x > 0) by (nonlinear_arith)
            requires
                x == (k - 1) * ext,
                k >= 2,
                ext > 0,
        ;
        assert(y > 0) by (nonlinear_arith)
            requires
                y == (m - 1) * len,
                m >= 2,
                len > 0,
        ;
    }
    if x >= y {
        two_minus_exec(x, y)
    } else {
        two_minus_exec(y, x)
    }
}

} // verus!
