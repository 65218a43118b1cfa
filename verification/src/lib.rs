//! Search-console arithmetic for SERP performance data, verified with Verus.
//!
//! Click-through rates are kept as exact fractions ([`Rate`]): a rate is
//! computed, checked, pooled and projected without rounding, and only a caller
//! that wants a float divides. A SERP position enters the library as its whole
//! part (`Option<u64>`, see [`valid_position`]), which is all that the
//! bucketing, paging and validation rules read.
//!
//! - [`SerpError`]: the error type and its text.
//! - [`ctr`], [`Rate`]: exact click-through rates and projections at a rate.
//! - [`page_of_position`], [`weighted_position_total`]: position arithmetic.
//! - [`CtrCurve`]: a CTR-by-position curve pooled from your own observations.
//! - [`pooled_totals`]: pooled clicks, impressions and rate of many rows.

mod curve;
mod curve_laws;
mod error;
mod position;
mod rate;
mod sums;
mod totals;

pub use error::{decimal, digit_char, error_message, SerpError};

pub use rate::{ctr, lemma_projection_is_nearest_click, saturated, spec_ctr, Rate};

pub use sums::{lemma_sum_of_append, lemma_sum_of_permutation, sum_of};

pub use position::{
    bucket_of, effective_per_page, lemma_page_holds_position, lemma_page_monotone,
    observation_error, page_fits, page_of_position, position_bucket, row_impressions,
    spec_page_of_position, spec_weighted_position_total, valid_position,
    lemma_weighted_total_adds_a_row, lemma_weighted_total_sums_every_row,
    weighted_position_total,
};

pub use curve::{
    all_accepted, bucket_at, click_delta_fits, curve_wf, insertion_point,
    lemma_curve_pools_observations, lemma_observed, lemma_observed_sums, observations_seen_at,
    observe_all, observed, observed_clicks_at, observed_impressions_at, pooled,
    pooled_observations, rate_points, sorted_by_position, spec_ctr_at, spec_project_clicks,
    spec_projected_click_delta, Bucket, CtrCurve, Observation,
};

pub use curve_laws::{
    lemma_buckets_determine_curve, lemma_click_delta_antisymmetric, lemma_observations_commute,
    lemma_points_match_buckets, lemma_projection_restates_observed_rate, lemma_same_pools_same_curve,
    lemma_observation_order_irrelevant, lemma_curve_length, lemma_click_delta_is_difference,
    lemma_observation_lands_at_its_whole_position, lemma_observed_position_has_bucket,
    lemma_project_clicks_is_nearest,
    lemma_unobserved_position_not_in_curve,
};

pub use totals::{
    clamp_u64, first_inconsistent_row, lemma_pooled_totals_are_pooled_counts,
    lemma_pooled_totals_order_irrelevant, lemma_pooled_totals_split,
    lemma_totals_add_up, pooled_totals, spec_pooled_totals, total_clicks, total_impressions,
    Totals,
};
