use hoosecalc::fixed::{Dec, Fee};
use hoosecalc::table::TieredCalculator;

#[test]
fn tier_calculation_real_values() {
    let mut calc = TieredCalculator::new();
    calc.threshold(Dec::new(0, 0), Dec::new(0, 0));
    calc.threshold(Dec::new(145000, 0), Dec::new(2, 2));
    calc.threshold(Dec::new(250000, 0), Dec::new(5, 2));
    calc.threshold(Dec::new(325000, 0), Dec::new(1, 1));
    calc.threshold(Dec::new(750000, 0), Dec::new(12, 2));

    assert_eq!(calc.calculate(Dec::new(0, 0)), Fee::new(0, 0));
    assert_eq!(calc.calculate(Dec::new(14499999, 2)), Fee::new(0, 0));
    assert_eq!(calc.calculate(Dec::new(145000, 0)), Fee::new(0, 0));
    assert_eq!(
        calc.calculate(Dec::new(145001, 0)),
        Dec::new(1, 0).times(Dec::new(2, 2))
    );
    assert_eq!(
        calc.calculate(Dec::new(250000, 0)),
        Dec::new(105000, 0).times(Dec::new(2, 2))
    );
    // 105000 * 0.02 + 1 * 0.05 = 2100.05
    assert_eq!(calc.calculate(Dec::new(250001, 0)), Fee::new(210005, 2));

    assert_eq!(calc.calculate(Dec::new(450000, 0)), Fee::new(18350, 0));
}

#[test]
fn tier_calculation_empty_tiers() {
    assert_eq!(
        TieredCalculator::new().calculate(Dec::new(750000, 0)),
        Fee::new(0, 0)
    );
    assert_eq!(
        TieredCalculator::new().calculate(Dec::new(0, 0)),
        Fee::new(0, 0)
    );
    assert_eq!(
        TieredCalculator::new().calculate(Dec::new(-100000, 0)),
        Fee::new(0, 0)
    )
}

#[test]
fn amount_below_lowest_threshold_owes_nothing() {
    let mut calc = TieredCalculator::new();
    calc.threshold(Dec::new(100, 0), Dec::new(5, 1));
    calc.threshold(Dec::new(200, 0), Dec::new(9, 1));
    assert_eq!(calc.calculate(Dec::new(50, 0)), Fee::new(0, 0));
    assert_eq!(calc.calculate(Dec::new(9999999, 5)), Fee::new(0, 0));
    assert_eq!(calc.calculate(Dec::new(100, 0)), Fee::new(0, 0));
}

#[test]
fn negative_amount_owes_nothing() {
    let mut calc = TieredCalculator::new();
    calc.threshold(Dec::new(0, 0), Dec::new(3, 1));
    calc.threshold(Dec::new(1000, 0), Dec::new(7, 1));
    assert_eq!(calc.calculate(Dec::new(-1, 6)), Fee::new(0, 0));
    assert_eq!(calc.calculate(Dec::new(-100000, 0)), Fee::new(0, 0));
}

#[test]
fn single_tier_charges_positive_part() {
    let mut calc = TieredCalculator::new();
    calc.threshold(Dec::new(0, 0), Dec::new(5, 1));
    assert_eq!(calc.calculate(Dec::new(10, 0)), Fee::new(5, 0));
    assert_eq!(calc.calculate(Dec::new(25, 1)), Fee::new(125, 2));
    assert_eq!(calc.calculate(Dec::new(-10, 0)), Fee::new(0, 0));
    assert_eq!(calc.calculate(Dec::new(0, 0)), Fee::new(0, 0));
}

#[test]
fn fee_grows_with_amount() {
    let mut calc = TieredCalculator::new();
    calc.threshold(Dec::new(0, 0), Dec::new(0, 0));
    calc.threshold(Dec::new(145000, 0), Dec::new(2, 2));
    calc.threshold(Dec::new(250000, 0), Dec::new(5, 2));
    calc.threshold(Dec::new(325000, 0), Dec::new(1, 1));
    calc.threshold(Dec::new(750000, 0), Dec::new(12, 2));

    let amounts: [Dec; 8] = [
        Dec::new(-1, 0),
        Dec::new(0, 0),
        Dec::new(144999, 0),
        Dec::new(145000, 0),
        Dec::new(145001, 0),
        Dec::new(250000, 0),
        Dec::new(450000, 0),
        Dec::new(750001, 0),
    ];
    let mut previous: i128 = calc.calculate(amounts[0]).units();
    for amount in amounts.iter().skip(1) {
        let fee: i128 = calc.calculate(*amount).units();
        assert!(previous <= fee);
        previous = fee;
    }
}

#[test]
fn same_threshold_overwrites_rate() {
    let mut calc = TieredCalculator::new();
    calc.threshold(Dec::new(0, 0), Dec::new(1, 1));
    calc.threshold(Dec::new(0, 0), Dec::new(2, 1));
    assert_eq!(calc.iterate_ascending().len(), 1);
    assert_eq!(calc.calculate(Dec::new(10, 0)), Fee::new(2, 0));
}

#[test]
fn insertion_order_does_not_matter() {
    let mut ascending = TieredCalculator::new();
    ascending.threshold(Dec::new(0, 0), Dec::new(0, 0));
    ascending.threshold(Dec::new(145000, 0), Dec::new(2, 2));
    ascending.threshold(Dec::new(250000, 0), Dec::new(5, 2));

    let mut descending = TieredCalculator::new();
    descending.threshold(Dec::new(250000, 0), Dec::new(5, 2));
    descending.threshold(Dec::new(145000, 0), Dec::new(2, 2));
    descending.threshold(Dec::new(0, 0), Dec::new(0, 0));

    assert_eq!(ascending.iterate_ascending(), descending.iterate_ascending());
    assert_eq!(
        ascending.calculate(Dec::new(300000, 0)),
        descending.calculate(Dec::new(300000, 0))
    );
    assert_eq!(
        ascending.calculate(Dec::new(300000, 0)),
        Fee::new(460000, 2)
    );
}

#[test]
fn largest_amount_and_rate_stay_exact() {
    let mut calc = TieredCalculator::new();
    calc.threshold(Dec::new(0, 0), Dec::new(10_000_000, 0));
    let fee = calc.calculate(Dec::new(100_000_000_000_000, 0));
    assert_eq!(fee.units(), 1_000_000_000_000_000_000_000_000_000_000_000);
}

#[test]
fn negative_rate_charges_negative_fee() {
    let mut calc = TieredCalculator::new();
    calc.threshold(Dec::new(0, 0), Dec::new(-5, 1));
    assert_eq!(calc.calculate(Dec::new(10, 0)), Fee::new(-5, 0));
}

#[test]
fn dec_normalizes_scale() {
    assert_eq!(Dec::new(1, 0), Dec::new(100, 2));
    assert_eq!(Dec::new(-25, 1), Dec::new(-2500000, 6));
    assert_eq!(Dec::new(1, 0).units(), 1_000_000);
    assert_eq!(Fee::new(21, 1), Fee::new(21000, 4));
    assert_eq!(Fee::new(1, 0).units(), 1_000_000_000_000);
}

#[test]
fn product_of_amount_and_rate_is_exact() {
    assert_eq!(Dec::new(105000, 0).times(Dec::new(2, 2)), Fee::new(2100, 0));
    assert_eq!(Dec::new(1, 6).times(Dec::new(1, 6)), Fee::new(1, 12));
    assert_eq!(Dec::new(-3, 0).times(Dec::new(5, 1)), Fee::new(-15, 1));
}
