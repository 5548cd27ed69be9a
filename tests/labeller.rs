use chartrs::labeller::{Label, Labeller};
use chartrs::ratio::Ratio;

fn whole(n: i64) -> Ratio {
    Ratio::from_int(n)
}

fn frac(n: i64, d: i64) -> Ratio {
    Ratio::new(n, d)
}

fn is_zero(l: &Label) -> bool {
    l.min == whole(0) && l.max == whole(0) && l.step == whole(0) && l.score == whole(0)
}

#[test]
fn example_test() {
    let mut labeller = Labeller::in_base10();
    labeller.loose = true;

    let label = labeller.search(whole(-98), whole(18), 2);
    assert_eq!(label.max, whole(20));
    assert_eq!(label.min, whole(-100));
    assert_eq!(label.step, whole(60));

    let label = labeller.search(whole(-25), whole(200), 3);
    assert_eq!(label.max, whole(200));
    assert_eq!(label.min, whole(-50));
    assert_eq!(label.step, whole(50));
}

#[test]
fn winning_scores_are_exact() {
    let mut labeller = Labeller::in_base10();
    labeller.loose = true;
    let label = labeller.search(whole(-98), whole(18), 2);
    assert_eq!(label.score, frac(-2029727, 5000000));
    let label = labeller.search(whole(-25), whole(200), 3);
    assert_eq!(label.score, frac(33179, 1250000));
}

#[test]
fn not_loose_may_leave_data_outside() {
    let labeller = Labeller::in_base10();
    let label = labeller.search(whole(-98), whole(18), 2);
    assert_eq!(label.min, whole(-100));
    assert_eq!(label.max, whole(0));
    assert_eq!(label.step, whole(100));
}

#[test]
fn fractional_data() {
    let labeller = Labeller::in_base10();
    let label = labeller.search(frac(1, 3), frac(7, 2), 5);
    assert_eq!(label.min, whole(0));
    assert_eq!(label.max, whole(4));
    assert_eq!(label.step, whole(1));
}

#[test]
fn fractional_step() {
    let labeller = Labeller::in_base10();
    let label = labeller.search(whole(0), whole(1), 10);
    assert_eq!(label.min, whole(0));
    assert_eq!(label.max, whole(1));
    assert_eq!(label.step, frac(1, 10));
}

#[test]
fn quarter_steps_cover_quarters() {
    let mut labeller = Labeller::in_base10();
    labeller.loose = true;
    let label = labeller.search(frac(-1, 4), frac(3, 4), 4);
    assert_eq!(label.min, frac(-1, 4));
    assert_eq!(label.max, frac(3, 4));
    assert_eq!(label.step, frac(1, 4));
}

#[test]
fn other_base_and_single_multiplier() {
    let mut labeller = Labeller::using_base(vec![whole(1)], whole(2));
    labeller.loose = true;
    let label = labeller.search(whole(0), whole(100), 5);
    assert_eq!(label.min, whole(0));
    assert_eq!(label.max, whole(112));
    assert_eq!(label.step, whole(16));
}

#[test]
fn offset_data() {
    let labeller = Labeller::in_base10();
    let label = labeller.search(whole(3), whole(1003), 6);
    assert_eq!(label.min, whole(0));
    assert_eq!(label.max, whole(1000));
    assert_eq!(label.step, whole(200));
}

#[test]
fn loose_labels_contain_the_data() {
    let mut labeller = Labeller::in_base10();
    labeller.loose = true;
    let cases = [(-98, 18, 2), (-25, 200, 3), (7, 13, 4), (-1000, -3, 5), (1, 2, 7)];
    for (lo, hi, m) in cases {
        let label = labeller.search(whole(lo), whole(hi), m);
        assert!(!is_zero(&label));
        let step = label.step.num as f64 / label.step.den as f64;
        let min = label.min.num as f64 / label.min.den as f64;
        let max = label.max.num as f64 / label.max.den as f64;
        assert!(step > 0.0);
        assert!(min <= lo as f64 && max >= hi as f64);
    }
}

#[test]
fn same_inputs_same_label() {
    let labeller = Labeller::in_base10();
    let a = labeller.search(frac(-7, 3), frac(41, 5), 6);
    let b = labeller.search(frac(-7, 3), frac(41, 5), 6);
    assert_eq!(a, b);
    assert_eq!(a.score, b.score);
    let other = Labeller::in_base10();
    assert_eq!(other.search(frac(-7, 3), frac(41, 5), 6), a);
    assert!(!labeller.loose);
}

#[test]
fn no_candidate_gives_the_zero_label() {
    let labeller = Labeller::new(vec![whole(1), whole(5), whole(2)], whole(10), vec![0, 0, 0, -3_000_000], frac(1, 1000));
    let label = labeller.search(whole(0), whole(10), 5);
    assert!(is_zero(&label));
}

#[test]
fn zero_label_is_all_zero() {
    assert!(is_zero(&Label::new()));
}

#[test]
fn ratios_compare_by_value() {
    assert_eq!(frac(40, 2), whole(20));
    assert_ne!(frac(1, 3), frac(1, 4));
    assert!(frac(-2, 4).same_value(&frac(-1, 2)));
}

#[test]
fn many_ticks_when_many_are_wanted() {
    let labeller = Labeller::in_base10();
    let label = labeller.search(whole(0), whole(99), 100);
    assert_eq!(label.min, whole(0));
    assert_eq!(label.max, whole(99));
    assert_eq!(label.step, whole(1));
}

#[test]
fn no_multipliers_gives_the_zero_label() {
    let labeller = Labeller::using_base(vec![], whole(10));
    let label = labeller.search(whole(0), whole(10), 5);
    assert!(is_zero(&label));
}

#[test]
fn earlier_multiplier_is_simpler() {
    // Step 10 comes from the multiplier 1 in both labellers; listed first it is
    // simpler, so the same axis scores higher.
    let a = Labeller::using_base(vec![whole(1), whole(2)], whole(10));
    let b = Labeller::using_base(vec![whole(2), whole(1)], whole(10));
    let la = a.search(whole(0), whole(20), 3);
    let lb = b.search(whole(0), whole(20), 3);
    assert_eq!(la.step, whole(10));
    assert_eq!(lb.step, whole(10));
    let sa = la.score.num as f64 / la.score.den as f64;
    let sb = lb.score.num as f64 / lb.score.den as f64;
    assert!(sa > sb);
}

#[test]
fn fractional_base() {
    let mut labeller = Labeller::using_base(vec![whole(1)], frac(5, 2));
    labeller.loose = true;
    let label = labeller.search(whole(0), whole(100), 5);
    assert_eq!(label.min, whole(0));
    assert_eq!(label.max, frac(1875, 16));
    assert_eq!(label.step, frac(625, 16));
}

#[test]
fn large_denominators_still_label() {
    let labeller = Labeller::in_base10();
    let a = labeller.search(frac(0, 1_000_000), frac(20_000_000_000, 1_000_000), 5);
    let b = labeller.search(whole(0), whole(20_000), 5);
    assert!(!is_zero(&a));
    assert_eq!(a, b);
    let c = labeller.search(frac(123_457, 1_000_000), frac(20_000_500_001, 1_000_000), 5);
    assert!(!is_zero(&c));
}
