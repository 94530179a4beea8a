use ferrous_ta::{Filter, CMA, DEMA, EMA, HMA, SMA, TEMA, VWAP, WMA, WWS};
use rust_decimal::{Decimal, RoundingStrategy};

fn round2(d: Decimal) -> Decimal {
    d.round_dp_with_strategy(2, RoundingStrategy::MidpointAwayFromZero)
}

fn dec(units: i64, scale: u32) -> Decimal {
    Decimal::new(units, scale)
}

fn closes() -> Vec<Decimal> {
    vec![dec(100, 0), dec(110, 0), dec(105, 0), dec(120, 0), dec(90, 0)]
}

#[test]
fn wws_smooths_by_period() {
    let mut wws = WWS::new(None, 4i64);
    assert_eq!(wws.step(10), 10);
    assert_eq!(wws.step(20), 12);
    assert_eq!(wws.step(4), 10);
    wws.reset();
    assert_eq!(wws.step(7), 7);
    let mut started = WWS::new(Some(100i64), 2);
    assert_eq!(started.step(50), 75);
}

#[test]
fn ema_decimal_values() {
    let mut ema = EMA::new(None, 10, 2);
    let expected = [dec(10000, 2), dec(10182, 2), dec(10240, 2), dec(10560, 2), dec(10276, 2)];
    for (v, e) in closes().into_iter().zip(expected) {
        assert_eq!(round2(ema.step(v)), e);
    }
}

#[test]
fn ema_first_step_returns_input_and_reset() {
    let mut ema = EMA::<f64>::new(None, 9, 2);
    assert_eq!(ema.step(42.0), 42.0);
    assert_eq!(ema.step(52.0), 0.2 * 52.0 + 0.8 * 42.0);
    ema.reset();
    assert_eq!(ema.step(3.0), 3.0);
    let mut seeded = EMA::<f64>::new(Some(10.0), 3, 2);
    assert_eq!(seeded.step(20.0), 0.5 * 20.0 + 0.5 * 10.0);
}

#[test]
fn ema_integer_alpha_truncates() {
    // With `i64`, alpha = 2 / 11 is 0, so the average keeps its first value.
    let mut ema = EMA::<i64>::new(None, 10, 2);
    assert_eq!(ema.step(5), 5);
    assert_eq!(ema.step(100), 5);
    // periods 1, smoothing 2: alpha = 1, alpha_neg = 0.
    let mut ema = EMA::<i64>::new(None, 1, 2);
    assert_eq!(ema.step(5), 5);
    assert_eq!(ema.step(100), 100);
}

#[test]
fn cma_running_mean() {
    let mut cma = CMA::<f64>::new();
    assert_eq!(cma.step(1.0), 1.0);
    assert_eq!(cma.step(2.0), 1.5);
    assert_eq!(cma.step(3.0), 2.0);
    assert_eq!(cma.step(6.0), 3.0);
    cma.reset();
    assert_eq!(cma.step(10.0), 10.0);
    let mut ints = CMA::<i64>::new();
    assert_eq!(ints.step(4), 4);
    assert_eq!(ints.step(8), 6);
}

#[test]
fn dema_decimal_values() {
    let mut dema = DEMA::new(None, 10, 2);
    let expected = [dec(10000, 2), dec(10331, 2), dec(10409, 2), dec(10960, 2), dec(10372, 2)];
    for (v, e) in closes().into_iter().zip(expected) {
        assert_eq!(round2(dema.step(v)), e);
    }
    dema.reset();
    assert_eq!(dema.step(dec(50, 0)), dec(50, 0));
}

#[test]
fn tema_decimal_values() {
    let mut tema = TEMA::new(None, 10, 2);
    let expected = [dec(10000, 2), dec(10452, 2), dec(10525, 2), dec(11244, 2), dec(10355, 2)];
    for (v, e) in closes().into_iter().zip(expected) {
        assert_eq!(round2(tema.step(v)), e);
    }
    tema.reset();
    assert_eq!(tema.step(dec(50, 0)), dec(50, 0));
}

#[test]
fn sma_decimal_values() {
    // The sum is returned once an input leaves the full window, from the (N + 1)-th step on.
    let mut sma = SMA::<Decimal, 2>::new();
    assert_eq!(sma.step(dec(10, 0)), None);
    assert_eq!(sma.step(dec(20, 0)), None);
    assert_eq!(sma.step(dec(40, 0)).map(round2), Some(dec(3000, 2)));
    assert_eq!(sma.step(dec(41, 0)).map(round2), Some(dec(4050, 2)));
    sma.reset();
    assert_eq!(sma.step(dec(1, 0)), None);
    assert_eq!(sma.step(dec(3, 0)), None);
    assert_eq!(sma.step(dec(5, 0)).map(round2), Some(dec(400, 2)));
}

#[test]
fn sma_integer_divisor() {
    // 1 / N is 1 for N = 1 and 0 for larger N with `i64`.
    let mut one = SMA::<i64, 1>::new();
    assert_eq!(one.step(7), None);
    assert_eq!(one.step(9), Some(9));
    assert_eq!(one.step(-2), Some(-2));
    let mut three = SMA::<i64, 3>::new();
    assert_eq!(three.step(3), None);
    assert_eq!(three.step(3), None);
    assert_eq!(three.step(3), None);
    assert_eq!(three.step(3), Some(0));
}

#[test]
fn wma_decimal_values() {
    let mut wma = WMA::<Decimal, 3>::new();
    let expected = [None, None, Some(dec(10583, 2)), Some(dec(11333, 2)), Some(dec(10250, 2))];
    for (v, e) in closes().into_iter().zip(expected) {
        assert_eq!(wma.step(v).map(round2), e);
    }
    wma.reset();
    assert_eq!(wma.step(dec(1, 0)), None);
    assert_eq!(wma.step(dec(2, 0)), None);
    assert_eq!(wma.step(dec(3, 0)).map(round2), Some(dec(233, 2)));
}

#[test]
fn wma_integer_values() {
    // For N = 1 the divisor 2 / (1 * 2) is 1: the average echoes its input.
    let mut wma = WMA::<i64, 1>::new();
    assert_eq!(wma.step(5), Some(5));
    assert_eq!(wma.step(-3), Some(-3));
    // For N = 2 the divisor 2 / 6 is 0 with `i64`.
    let mut two = WMA::<i64, 2>::new();
    assert_eq!(two.step(5), None);
    assert_eq!(two.step(6), Some(0));
}

#[test]
fn vwap_decimal_values() {
    let mut vwap = VWAP::<Decimal, 2>::new();
    assert_eq!(vwap.step([dec(10, 0), dec(2, 0)]), None);
    assert_eq!(vwap.step([dec(12, 0), dec(3, 0)]), None);
    assert_eq!(vwap.step([dec(11, 0), dec(5, 0)]).map(round2), Some(dec(1138, 2)));
    assert_eq!(vwap.step([dec(9, 0), dec(1, 0)]).map(round2), Some(dec(1067, 2)));
    vwap.reset();
    assert_eq!(vwap.step([dec(4, 0), dec(1, 0)]), None);
    assert_eq!(vwap.step([dec(8, 0), dec(1, 0)]), None);
    assert_eq!(vwap.step([dec(6, 0), dec(1, 0)]), Some(dec(7, 0)));
}

#[test]
fn vwap_integer_values() {
    let mut vwap = VWAP::<i64, 2>::new();
    assert_eq!(vwap.step([10, 2]), None);
    assert_eq!(vwap.step([12, 3]), None);
    assert_eq!(vwap.step([11, 5]), Some(91 / 8));
    assert_eq!(vwap.step([9, 1]), Some(64 / 6));
}

#[test]
fn hma_decimal_values() {
    let mut hma = HMA::<Decimal, 4, 2, 2>::new();
    let inputs = [10, 12, 11, 14, 13, 15, 16, 14, 17, 18];
    let expected = [
        None,
        None,
        None,
        None,
        Some(dec(1381, 2)),
        Some(dec(1453, 2)),
        Some(dec(1591, 2)),
        Some(dec(1523, 2)),
        Some(dec(1574, 2)),
        Some(dec(1786, 2)),
    ];
    for (v, e) in inputs.into_iter().zip(expected) {
        assert_eq!(hma.step(dec(v, 0)).map(round2), e);
    }
    hma.reset();
    for v in [10, 12, 11, 14] {
        assert_eq!(hma.step(dec(v, 0)), None);
    }
}

#[test]
fn wma_i128_weighted_sum_of_window() {
    // For N = 1 the divisor is 1, so each value is the (single-item) weighted sum.
    let mut wma = WMA::<i128, 1>::new();
    assert_eq!(wma.step(-40), Some(-40));
    assert_eq!(wma.step(12), Some(12));
}

#[test]
fn sma_none_for_first_n_steps() {
    let mut sma = SMA::<i128, 4>::new();
    let outs: Vec<Option<i128>> = [1, 2, 3, 4, 5, 6].iter().map(|&x| sma.step(x)).collect();
    assert_eq!(outs, vec![None, None, None, None, Some(0), Some(0)]);
}

#[test]
fn dema_matches_two_emas() {
    let mut dema = DEMA::<f64>::new(None, 4, 2);
    let mut e1 = EMA::<f64>::new(None, 4, 2);
    let mut e2 = EMA::<f64>::new(None, 4, 2);
    for x in [3.0, 5.0, 4.0, 8.0] {
        let y1 = e1.step(x);
        let y2 = e2.step(y1);
        assert_eq!(dema.step(x), 2.0 * y1 - y2);
    }
    dema.reset();
    e1.reset();
    e2.reset();
    let y1 = e1.step(10.0);
    let y2 = e2.step(y1);
    assert_eq!(dema.step(10.0), 2.0 * y1 - y2);
}
