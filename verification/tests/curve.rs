use serp_ctr::{CtrCurve, Rate, SerpError};

fn approx(a: f64, b: f64) {
    assert!((a - b).abs() < 1e-9, "{a} != {b}");
}

fn as_f64(rate: Rate) -> f64 {
    rate.clicks as f64 / rate.impressions as f64
}

#[test]
fn curve_pools_observations_into_buckets() {
    let mut curve = CtrCurve::new();
    // positions 1.2, 1.9 and 8.0 enter by their whole parts
    curve.observe(Some(1), 30, 100).unwrap();
    curve.observe(Some(1), 20, 100).unwrap();
    curve.observe(Some(8), 1, 100).unwrap();
    assert_eq!(curve.len(), 2);
    approx(as_f64(curve.ctr_at(1).unwrap()), 0.25);
    approx(as_f64(curve.ctr_at(8).unwrap()), 0.01);
    assert_eq!(curve.impressions_at(1), 200);
    assert_eq!(curve.impressions_at(4), 0);
}

#[test]
fn curve_refuses_to_invent_unobserved_positions() {
    let curve = CtrCurve::from_observations(&[(Some(1), 10, 100)]).unwrap();
    assert_eq!(curve.ctr_at(5), Err(SerpError::PositionNotInCurve(5)));
    assert!(curve.project_clicks(5, 1_000).is_err());
}

#[test]
fn curve_rejects_invalid_observations() {
    let mut curve = CtrCurve::new();
    // 0.9 has whole part 0; NaN has none
    assert_eq!(curve.observe(Some(0), 1, 10), Err(SerpError::InvalidPosition));
    assert_eq!(curve.observe(None, 1, 10), Err(SerpError::InvalidPosition));
    assert!(curve.observe(Some(2), 11, 10).is_err());
    assert!(curve.is_empty());
}

#[test]
fn projection_restates_the_observed_rate() {
    let curve =
        CtrCurve::from_observations(&[(Some(3), 60, 1_000), (Some(9), 10, 1_000)]).unwrap();
    assert_eq!(curve.project_clicks(3, 5_000).unwrap(), 300);
    assert_eq!(curve.project_clicks(9, 5_000).unwrap(), 50);
    assert_eq!(curve.projected_click_delta(9, 3, 5_000).unwrap(), 250);
    assert_eq!(curve.projected_click_delta(3, 9, 5_000).unwrap(), -250);
}

#[test]
fn curve_points_are_sorted_and_skip_empty_buckets() {
    let mut curve = CtrCurve::new();
    curve.observe(Some(9), 1, 10).unwrap();
    curve.observe(Some(2), 5, 10).unwrap();
    curve.observe(Some(5), 0, 0).unwrap();
    let points = curve.points();
    assert_eq!(points.len(), 2);
    assert_eq!(points[0].0, 2);
    assert_eq!(points[1].0, 9);
}

#[test]
fn points_carry_the_pooled_rates() {
    let mut curve = CtrCurve::new();
    curve.observe(Some(4), 3, 7).unwrap();
    curve.observe(Some(1), 0, 5).unwrap();
    curve.observe(Some(4), 1, 1).unwrap();
    assert_eq!(
        curve.points(),
        vec![
            (1, Rate { clicks: 0, impressions: 5 }),
            (4, Rate { clicks: 4, impressions: 8 }),
        ]
    );
}

#[test]
fn observation_order_does_not_change_the_curve() {
    let a = CtrCurve::from_observations(&[
        (Some(3), 1, 4),
        (Some(1), 2, 9),
        (Some(3), 5, 5),
        (Some(2), 0, 1),
    ])
    .unwrap();
    let b = CtrCurve::from_observations(&[
        (Some(2), 0, 1),
        (Some(3), 5, 5),
        (Some(3), 1, 4),
        (Some(1), 2, 9),
    ])
    .unwrap();
    assert!(a == b);
    assert_eq!(a.ctr_at(3), Ok(Rate { clicks: 6, impressions: 9 }));
}

#[test]
fn first_refused_observation_fails_the_build() {
    assert_eq!(
        CtrCurve::from_observations(&[(Some(1), 1, 2), (Some(2), 5, 1), (None, 1, 1)]),
        Err(SerpError::ClicksExceedImpressions { clicks: 5, impressions: 1 })
    );
    assert_eq!(
        CtrCurve::from_observations(&[(Some(1), 1, 2), (None, 1, 1), (Some(2), 5, 1)]),
        Err(SerpError::InvalidPosition)
    );
}

#[test]
fn rejected_observation_leaves_curve_unchanged() {
    let mut curve = CtrCurve::from_observations(&[(Some(2), 1, 3)]).unwrap();
    let before = curve.clone();
    assert_eq!(
        curve.observe(Some(2), 4, 3),
        Err(SerpError::ClicksExceedImpressions { clicks: 4, impressions: 3 })
    );
    assert!(curve == before);
}

#[test]
fn counts_saturate_and_far_positions_share_the_last_bucket() {
    let mut curve = CtrCurve::new();
    curve.observe(Some(1), u64::MAX, u64::MAX).unwrap();
    curve.observe(Some(1), 7, 7).unwrap();
    assert_eq!(curve.impressions_at(1), u64::MAX);
    assert_eq!(curve.ctr_at(1), Ok(Rate { clicks: u64::MAX, impressions: u64::MAX }));
    curve.observe(Some(5_000_000_000), 1, 2).unwrap();
    curve.observe(Some(u64::MAX), 1, 2).unwrap();
    assert_eq!(curve.len(), 2);
    assert_eq!(curve.impressions_at(u32::MAX), 4);
}

#[test]
fn empty_bucket_has_no_rate() {
    let curve = CtrCurve::from_observations(&[(Some(6), 0, 0)]).unwrap();
    assert_eq!(curve.ctr_at(6), Err(SerpError::NoImpressions));
    assert_eq!(curve.project_clicks(6, 100), Err(SerpError::NoImpressions));
    assert!(curve.points().is_empty());
}

#[test]
fn projection_rounds_to_the_nearest_click() {
    let half = CtrCurve::from_observations(&[(Some(1), 1, 2)]).unwrap();
    assert_eq!(half.project_clicks(1, 1), Ok(1));
    assert_eq!(half.project_clicks(1, 3), Ok(2));
    assert_eq!(half.project_clicks(1, 0), Ok(0));
    let third = CtrCurve::from_observations(&[(Some(1), 1, 3)]).unwrap();
    assert_eq!(third.project_clicks(1, 1), Ok(0));
    assert_eq!(third.project_clicks(1, 2), Ok(1));
    assert_eq!(third.project_clicks(1, u64::MAX), Ok(u64::MAX / 3));
    let all = CtrCurve::from_observations(&[(Some(1), 9, 9)]).unwrap();
    assert_eq!(all.project_clicks(1, u64::MAX), Ok(u64::MAX));
}

#[test]
fn projection_at_observed_volume_gives_observed_clicks() {
    let curve = CtrCurve::from_observations(&[(Some(7), 13, 997), (Some(7), 4, 4)]).unwrap();
    let volume = curve.impressions_at(7);
    assert_eq!(volume, 1001);
    assert_eq!(curve.project_clicks(7, volume), Ok(17));
}

#[test]
fn click_delta_is_antisymmetric_and_reports_missing_positions() {
    let curve = CtrCurve::from_observations(&[(Some(2), 3, 10), (Some(5), 1, 10)]).unwrap();
    assert_eq!(curve.projected_click_delta(2, 5, 1_000), Ok(-200));
    assert_eq!(curve.projected_click_delta(5, 2, 1_000), Ok(200));
    assert_eq!(curve.projected_click_delta(5, 5, 1_000), Ok(0));
    assert_eq!(curve.projected_click_delta(4, 5, 10), Err(SerpError::PositionNotInCurve(4)));
    assert_eq!(curve.projected_click_delta(2, 6, 10), Err(SerpError::PositionNotInCurve(6)));
}

#[test]
fn default_curve_is_empty() {
    let curve = CtrCurve::default();
    assert!(curve.is_empty());
    assert_eq!(curve.len(), 0);
    assert!(curve == CtrCurve::new());
}

#[test]
fn curve_has_one_bucket_per_distinct_position() {
    let curve = CtrCurve::from_observations(&[
        (Some(4), 0, 0),
        (Some(2), 1, 5),
        (Some(4), 2, 3),
        (Some(9), 0, 0),
        (Some(2), 0, 1),
    ])
    .unwrap();
    assert_eq!(curve.len(), 3);
    assert_eq!(curve.points().len(), 2);
}

#[test]
fn clone_keeps_the_buckets() {
    let curve = CtrCurve::from_observations(&[(Some(3), 1, 2), (Some(1), 0, 4)]).unwrap();
    let copy = curve.clone();
    assert!(copy == curve);
    assert_eq!(copy.points(), curve.points());
}
