use serp_ctr::{
    ctr, page_of_position, pooled_totals, weighted_position_total, Rate, SerpError,
};

fn approx(a: f64, b: f64) {
    assert!((a - b).abs() < 1e-9, "{a} != {b}");
}

fn as_f64(rate: Rate) -> f64 {
    rate.clicks as f64 / rate.impressions as f64
}

#[test]
fn ctr_is_a_plain_ratio() {
    approx(as_f64(ctr(50, 200).unwrap()), 0.25);
    approx(as_f64(ctr(0, 200).unwrap()), 0.0);
}

#[test]
fn ctr_rejects_impossible_rows() {
    assert_eq!(ctr(1, 0), Err(SerpError::NoImpressions));
    assert_eq!(
        ctr(5, 4),
        Err(SerpError::ClicksExceedImpressions {
            clicks: 5,
            impressions: 4
        })
    );
}

#[test]
fn ctr_keeps_the_exact_fraction() {
    assert_eq!(ctr(7, 1_000), Ok(Rate { clicks: 7, impressions: 1_000 }));
    assert_eq!(ctr(0, 0), Err(SerpError::NoImpressions));
    assert_eq!(ctr(3, 3), Ok(Rate { clicks: 3, impressions: 3 }));
}

#[test]
fn weighted_position_respects_impression_volume() {
    // positions 2.0 and 90.0
    let total = weighted_position_total(&[(Some(2), 9_000), (Some(90), 1_000)]).unwrap();
    assert_eq!(total, 10_000);
    // Plain mean would be 46.0; the weighted answer is 10.8.
    approx((2.0 * 9_000.0 + 90.0 * 1_000.0) / total as f64, 10.8);
}

#[test]
fn weighted_position_rejects_bad_input() {
    assert_eq!(weighted_position_total(&[]), Err(SerpError::EmptyInput));
    // position 0.5
    let bad = [(Some(0), 10)];
    assert_eq!(weighted_position_total(&bad), Err(SerpError::InvalidPosition));
    let zero = [(Some(4), 0)];
    assert_eq!(weighted_position_total(&zero), Err(SerpError::NoImpressions));
}

#[test]
fn weighted_position_checks_every_row() {
    assert_eq!(
        weighted_position_total(&[(Some(1), 0), (Some(3), 5), (None, 2)]),
        Err(SerpError::InvalidPosition)
    );
    assert_eq!(
        weighted_position_total(&[(Some(1), u64::MAX), (Some(3), 5)]),
        Ok(u64::MAX)
    );
}

#[test]
fn pages_are_one_indexed() {
    assert_eq!(page_of_position(Some(1), 10), 1);
    // position 10.9
    assert_eq!(page_of_position(Some(10), 10), 1);
    assert_eq!(page_of_position(Some(11), 10), 2);
    assert_eq!(page_of_position(Some(21), 10), 3);
    assert_eq!(page_of_position(Some(3), 0), 3);
}

#[test]
fn invalid_positions_are_on_the_first_page() {
    assert_eq!(page_of_position(None, 10), 1);
    assert_eq!(page_of_position(Some(0), 10), 1);
}

#[test]
fn a_page_holds_per_page_positions() {
    for w in 1..=30u64 {
        let page = page_of_position(Some(w), 7) as u64;
        assert!((page - 1) * 7 < w && w <= page * 7);
    }
    assert_eq!(page_of_position(Some(u64::from(u32::MAX)), u32::MAX), 1);
    assert_eq!(page_of_position(Some(1 << 40), 1 << 20), 1 << 20);
}

#[test]
fn pooled_totals_differ_from_a_mean_of_rates() {
    let rows = [(1u64, 10u64), (100, 10_000)];
    let totals = pooled_totals(&rows).unwrap();
    assert_eq!(totals.clicks, 101);
    assert_eq!(totals.impressions, 10_010);
    approx(as_f64(totals.ctr), 101.0 / 10_010.0);
    // The mean of the two row CTRs would be 0.055, five times the pooled rate.
    assert!(as_f64(totals.ctr) < 0.055);
}

#[test]
fn pooled_totals_rejects_bad_input() {
    assert_eq!(pooled_totals(&[]), Err(SerpError::EmptyInput));
    assert!(pooled_totals(&[(5, 1)]).is_err());
    assert_eq!(pooled_totals(&[(0, 0)]), Err(SerpError::NoImpressions));
}

#[test]
fn pooled_totals_reports_the_first_inconsistent_row() {
    assert_eq!(
        pooled_totals(&[(1, 2), (5, 1), (7, 3)]),
        Err(SerpError::ClicksExceedImpressions { clicks: 5, impressions: 1 })
    );
}

#[test]
fn pooled_totals_saturate() {
    let totals = pooled_totals(&[(u64::MAX, u64::MAX), (1, 1)]).unwrap();
    assert_eq!(totals.clicks, u64::MAX);
    assert_eq!(totals.impressions, u64::MAX);
    assert_eq!(totals.ctr, Rate { clicks: u64::MAX, impressions: u64::MAX });
}

#[test]
fn errors_display_readably() {
    assert_eq!(
        SerpError::PositionNotInCurve(7).to_string(),
        "curve has no observation for position 7"
    );
}

#[test]
fn every_error_has_its_text() {
    assert_eq!(SerpError::NoImpressions.to_string(), "no impressions, rate is undefined");
    assert_eq!(
        SerpError::ClicksExceedImpressions { clicks: 12, impressions: 0 }.to_string(),
        "clicks (12) exceed impressions (0)"
    );
    assert_eq!(
        SerpError::InvalidPosition.to_string(),
        "position must be a finite number >= 1.0"
    );
    assert_eq!(SerpError::EmptyInput.to_string(), "input is empty");
    assert_eq!(
        SerpError::PositionNotInCurve(u32::MAX).to_string(),
        "curve has no observation for position 4294967295"
    );
    assert_eq!(
        SerpError::ClicksExceedImpressions { clicks: u64::MAX, impressions: 10 }.to_string(),
        "clicks (18446744073709551615) exceed impressions (10)"
    );
}

#[test]
fn pooled_totals_ignore_row_order_and_add_up_by_parts() {
    let whole = pooled_totals(&[(1, 10), (3, 4), (0, 7), (20, 100)]).unwrap();
    let shuffled = pooled_totals(&[(20, 100), (0, 7), (1, 10), (3, 4)]).unwrap();
    assert_eq!(whole, shuffled);
    let first = pooled_totals(&[(1, 10), (3, 4)]).unwrap();
    let second = pooled_totals(&[(0, 7), (20, 100)]).unwrap();
    assert_eq!(first.clicks + second.clicks, whole.clicks);
    assert_eq!(first.impressions + second.impressions, whole.impressions);
    assert_eq!(whole.ctr, Rate { clicks: 24, impressions: 121 });
}
