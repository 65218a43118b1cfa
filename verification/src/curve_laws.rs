use vstd::prelude::*;

use crate::curve::{
    all_accepted, bucket_at, curve_wf, insertion_point, lemma_bucket_at_index,
    lemma_curve_pools_observations, lemma_insertion_point_bounds, lemma_observed, observations_seen_at,
    observe_all, observed, pooled_observations, rate_points, spec_ctr_at, spec_project_clicks,
    spec_projected_click_delta, sorted_by_position, click_delta_fits, Bucket, Observation,
};
use crate::error::SerpError;
use crate::position::{observation_error, position_bucket};
use crate::sums::{lemma_permutation_contains, lemma_sum_of_permutation};
use crate::rate::Rate;

verus! {

/// Dropping the first bucket of an ascending curve removes exactly its position.
proof fn lemma_drop_first_buckets(s: Seq<Bucket>, q: u32)
    requires
        sorted_by_position(s),
        s.len() > 0,
    ensures
        bucket_at(s.drop_first(), q) == if q == s[0].0 {
            None
        } else {
            bucket_at(s, q)
        },
{
    let t = s.drop_first();
    assert(sorted_by_position(t)) by {
        assert forall|a: int, b: int| 0 <= a < b < t.len() implies #[trigger] t[a].0
            < #[trigger] t[b].0 by {
            assert(t[a] == s[a + 1] && t[b] == s[b + 1]);
            assert(s[a + 1].0 < s[b + 1].0);
        }
    }
    if bucket_at(t, q) is Some {
        let j = insertion_point(t, q) as int;
        lemma_bucket_at_index(t, j);
        assert(t[j] == s[j + 1]);
        assert(s[0].0 < s[j + 1].0);
        lemma_bucket_at_index(s, j + 1);
    } else if q != s[0].0 && bucket_at(s, q) is Some {
        let j = insertion_point(s, q) as int;
        lemma_bucket_at_index(s, j);
        assert(j != 0);
        assert(t[j - 1] == s[j]);
        lemma_bucket_at_index(t, j - 1);
    }
}

/// Law: a curve is determined by what it holds at each position: two valid
/// curves with the same bucket at every position are the same curve.
pub proof fn lemma_buckets_determine_curve(s1: Seq<Bucket>, s2: Seq<Bucket>)
    requires
        curve_wf(s1),
        curve_wf(s2),
        forall|q: u32| #[trigger] bucket_at(s1, q) == bucket_at(s2, q),
    ensures
        s1 == s2,
    decreases s1.len(),
{
    if s1.len() == 0 && s2.len() == 0 {
        assert(s1 =~= s2);
    } else if s1.len() == 0 {
        lemma_bucket_at_index(s2, 0);
        assert(bucket_at(s1, s2[0].0) == bucket_at(s2, s2[0].0));
    } else if s2.len() == 0 {
        lemma_bucket_at_index(s1, 0);
        assert(bucket_at(s1, s1[0].0) == bucket_at(s2, s1[0].0));
    } else {
        let p1 = s1[0].0;
        let p2 = s2[0].0;
        lemma_bucket_at_index(s1, 0);
        lemma_bucket_at_index(s2, 0);
        assert(bucket_at(s1, p1) == bucket_at(s2, p1));
        assert(bucket_at(s1, p2) == bucket_at(s2, p2));
        lemma_insertion_point_bounds(s2, p1);
        lemma_insertion_point_bounds(s1, p2);
        let j2 = insertion_point(s2, p1) as int;
        let j1 = insertion_point(s1, p2) as int;
        assert(s2[j2].0 == p1);
        assert(s1[j1].0 == p2);
        if j1 > 0 {
            assert(s1[0].0 < s1[j1].0);
        }
        if j2 > 0 {
            assert(s2[0].0 < s2[j2].0);
        }
        assert(p1 == p2);
        assert(s1[0] == s2[0]);
        let t1 = s1.drop_first();
        let t2 = s2.drop_first();
        assert forall|q: u32| #[trigger] bucket_at(t1, q) == bucket_at(t2, q) by {
            lemma_drop_first_buckets(s1, q);
            lemma_drop_first_buckets(s2, q);
            assert(bucket_at(s1, q) == bucket_at(s2, q));
        }
        assert(curve_wf(t1)) by {
            assert forall|a: int, b: int| 0 <= a < b < t1.len() implies #[trigger] t1[a].0
                < #[trigger] t1[b].0 by {
                assert(s1[a + 1].0 < s1[b + 1].0);
            }
            assert forall|i: int| 0 <= i < t1.len() implies (#[trigger] t1[i]).0 >= 1 && t1[i].1
                <= t1[i].2 by {
                assert(t1[i] == s1[i + 1]);
            }
        }
        assert(curve_wf(t2)) by {
            assert forall|a: int, b: int| 0 <= a < b < t2.len() implies #[trigger] t2[a].0
                < #[trigger] t2[b].0 by {
                assert(s2[a + 1].0 < s2[b + 1].0);
            }
            assert forall|i: int| 0 <= i < t2.len() implies (#[trigger] t2[i]).0 >= 1 && t2[i].1
                <= t2[i].2 by {
                assert(t2[i] == s2[i + 1]);
            }
        }
        lemma_buckets_determine_curve(t1, t2);
        assert(s1 =~= s2) by {
            assert forall|i: int| 0 <= i < s1.len() implies s1[i] == s2[i] by {
                if i > 0 {
                    assert(s1[i] == t1[i - 1]);
                    assert(s2[i] == t2[i - 1]);
                }
            }
        }
    }
}

/// Law: the order of two accepted observations does not matter: folding
/// `(p, c, i)` then `(p2, c2, i2)` into a curve gives the same curve as the
/// other way round.
pub proof fn lemma_observations_commute(
    s: Seq<Bucket>,
    p: u32,
    c: u64,
    i: u64,
    p2: u32,
    c2: u64,
    i2: u64,
)
    requires
        curve_wf(s),
        p >= 1,
        c <= i,
        p2 >= 1,
        c2 <= i2,
    ensures
        observed(observed(s, p, c, i), p2, c2, i2) == observed(observed(s, p2, c2, i2), p, c, i),
{
    let a1 = observed(s, p, c, i);
    let b1 = observed(s, p2, c2, i2);
    lemma_observed(s, p, c, i);
    lemma_observed(s, p2, c2, i2);
    lemma_observed(a1, p2, c2, i2);
    lemma_observed(b1, p, c, i);
    let a = observed(a1, p2, c2, i2);
    let b = observed(b1, p, c, i);
    assert forall|q: u32| #[trigger] bucket_at(a, q) == bucket_at(b, q) by {
        if q == p && q == p2 {
        } else if q == p {
            assert(bucket_at(a, q) == bucket_at(a1, q));
            assert(bucket_at(b1, q) == bucket_at(s, q));
        } else if q == p2 {
            assert(bucket_at(b, q) == bucket_at(b1, q));
            assert(bucket_at(a1, q) == bucket_at(s, q));
        } else {
            assert(bucket_at(a, q) == bucket_at(a1, q));
            assert(bucket_at(b, q) == bucket_at(b1, q));
        }
    }
    lemma_buckets_determine_curve(a, b);
}

/// Law: two logs of accepted observations that pool to the same clicks and
/// impressions at every position build the same curve, whatever their order.
pub proof fn lemma_same_pools_same_curve(obs1: Seq<Observation>, obs2: Seq<Observation>)
    requires
        all_accepted(obs1),
        all_accepted(obs2),
        forall|q: u32| #[trigger] pooled_observations(obs1, q) == pooled_observations(obs2, q),
    ensures
        observe_all(obs1) == observe_all(obs2),
{
    lemma_curve_pools_observations(obs1);
    lemma_curve_pools_observations(obs2);
    assert forall|q: u32| #[trigger] bucket_at(observe_all(obs1), q) == bucket_at(observe_all(obs2), q) by {
        assert(pooled_observations(obs1, q) == pooled_observations(obs2, q));
    }
    lemma_buckets_determine_curve(observe_all(obs1), observe_all(obs2));
}

/// Law: the order of the observations does not matter: any reordering of an
/// accepted log is accepted too and builds the same curve.
pub proof fn lemma_observation_order_irrelevant(obs: Seq<Observation>, obs2: Seq<Observation>)
    requires
        all_accepted(obs),
        obs2.to_multiset() == obs.to_multiset(),
    ensures
        all_accepted(obs2),
        observe_all(obs2) == observe_all(obs),
{
    assert forall|k: int| 0 <= k < obs2.len() implies observation_error(
        #[trigger] obs2[k].0,
        obs2[k].1,
        obs2[k].2,
    ) is None by {
        assert(obs2.contains(obs2[k]));
        lemma_permutation_contains(obs, obs2, obs2[k]);
        let j = choose|j: int| 0 <= j < obs.len() && obs[j] == obs2[k];
        assert(observation_error(obs[j].0, obs[j].1, obs[j].2) is None);
    }
    assert forall|q: u32| #[trigger] pooled_observations(obs, q) == pooled_observations(obs2, q) by {
        lemma_sum_of_permutation(
            obs,
            obs2,
            |o: Observation|
                if position_bucket(o.0) == q {
                    o.1 as int
                } else {
                    0
                },
        );
        lemma_sum_of_permutation(
            obs,
            obs2,
            |o: Observation|
                if position_bucket(o.0) == q {
                    o.2 as int
                } else {
                    0
                },
        );
        if observations_seen_at(obs, q) {
            let k = choose|k: int| 0 <= k < obs.len() && position_bucket(#[trigger] obs[k].0) == q;
            assert(obs.contains(obs[k]));
            lemma_permutation_contains(obs, obs2, obs[k]);
            let j = choose|j: int| 0 <= j < obs2.len() && obs2[j] == obs[k];
            assert(position_bucket(obs2[j].0) == q);
        }
        if observations_seen_at(obs2, q) {
            let k = choose|k: int| 0 <= k < obs2.len() && position_bucket(#[trigger] obs2[k].0) == q;
            assert(obs2.contains(obs2[k]));
            lemma_permutation_contains(obs, obs2, obs2[k]);
            let j = choose|j: int| 0 <= j < obs.len() && obs[j] == obs2[k];
            assert(position_bucket(obs[j].0) == q);
        }
    }
    lemma_same_pools_same_curve(obs, obs2);
}

/// Law: a curve built from accepted observations has one bucket for each
/// distinct whole-number position observed (buckets with zero impressions
/// included).
pub proof fn lemma_curve_length(obs: Seq<Observation>)
    requires
        all_accepted(obs),
    ensures
        Set::new(|q: u32| observations_seen_at(obs, q)).finite(),
        observe_all(obs).len() == Set::new(|q: u32| observations_seen_at(obs, q)).len(),
{
    lemma_curve_pools_observations(obs);
    let s = observe_all(obs);
    let ps = s.map_values(|b: Bucket| b.0);
    assert(ps.no_duplicates()) by {
        assert forall|i: int, j: int| 0 <= i < ps.len() && 0 <= j < ps.len() && i != j implies ps[i]
            != ps[j] by {
            if i < j {
                assert(s[i].0 < s[j].0);
            } else {
                assert(s[j].0 < s[i].0);
            }
        }
    }
    ps.unique_seq_to_set();
    let seen = Set::new(|q: u32| observations_seen_at(obs, q));
    assert(ps.to_set() =~= seen) by {
        assert forall|q: u32| ps.to_set().contains(q) <==> seen.contains(q) by {
            if ps.to_set().contains(q) {
                assert(ps.contains(q));
                let i = choose|i: int| 0 <= i < ps.len() && ps[i] == q;
                lemma_bucket_at_index(s, i);
                assert(bucket_at(s, q) == pooled_observations(obs, q));
            }
            if seen.contains(q) {
                assert(bucket_at(s, q) == pooled_observations(obs, q));
                let i = insertion_point(s, q) as int;
                assert(ps[i] == q);
                assert(ps.contains(q));
            }
        }
    }
    vstd::seq_lib::seq_to_set_is_finite(ps);
}

/// Law: an observation at a position with whole part `w` is filed under
/// bucket `w` itself: a curve built from it alone has exactly one bucket, at
/// `w`, holding that observation's clicks and impressions.
pub proof fn lemma_observation_lands_at_its_whole_position(w: u64, clicks: u64, impressions: u64)
    requires
        1 <= w <= u32::MAX,
        clicks <= impressions,
    ensures
        observe_all(seq![(Some(w), clicks, impressions)]).len() == 1,
        bucket_at(observe_all(seq![(Some(w), clicks, impressions)]), w as u32) == Some(
            (clicks, impressions),
        ),
        forall|q: u32|
            q != w ==> #[trigger] bucket_at(observe_all(seq![(Some(w), clicks, impressions)]), q)
                is None,
{
    let obs = seq![(Some(w), clicks, impressions)];
    assert(obs.drop_last() =~= Seq::<Observation>::empty());
    let s = observe_all(obs);
    assert(obs.last() == (Some(w), clicks, impressions));
    assert(observe_all(obs.drop_last()) == Seq::<Bucket>::empty());
    assert(insertion_point(Seq::<Bucket>::empty(), position_bucket(Some(w))) == 0);
    assert(s == observed(Seq::<Bucket>::empty(), position_bucket(Some(w)), clicks, impressions));
    assert(s == Seq::<Bucket>::empty().insert(0, (position_bucket(Some(w)), clicks, impressions)));
    assert(s =~= seq![(w as u32, clicks, impressions)]);
    lemma_bucket_at_index(s, 0);
    assert forall|q: u32| q != w implies #[trigger] bucket_at(observe_all(
        seq![(Some(w), clicks, impressions)],
    ), q) is None by {
        lemma_insertion_point_bounds(s, q);
    }
}

/// Law: every whole position observed (up to `u32::MAX`) has a bucket at that
/// very number in the curve built from accepted observations.
pub proof fn lemma_observed_position_has_bucket(obs: Seq<Observation>, k: int, w: u64)
    requires
        all_accepted(obs),
        0 <= k < obs.len(),
        obs[k].0 == Some(w),
        w <= u32::MAX,
    ensures
        bucket_at(observe_all(obs), w as u32) is Some,
{
    lemma_curve_pools_observations(obs);
    assert(position_bucket(obs[k].0) == w as u32);
    assert(observations_seen_at(obs, w as u32));
}

/// Law: when both projections succeed, the click delta is the projection at
/// `to` minus the projection at `from`, exactly.
pub proof fn lemma_click_delta_is_difference(
    s: Seq<Bucket>,
    from: u32,
    to: u32,
    impressions: u64,
    before: u64,
    after: u64,
)
    requires
        spec_project_clicks(s, from, impressions) == Ok::<u64, SerpError>(before),
        spec_project_clicks(s, to, impressions) == Ok::<u64, SerpError>(after),
        i64::MIN <= after - before <= i64::MAX,
    ensures
        spec_projected_click_delta(s, from, to, impressions) == Ok::<i64, SerpError>(
            (after - before) as i64,
        ),
        (after - before) as i64 == after - before,
{
}

/// Law: a projection from a curve is the whole number of clicks nearest to
/// `impressions` times the bucket's pooled clicks over its pooled
/// impressions (halves rounded up), and never more than `impressions`.
pub proof fn lemma_project_clicks_is_nearest(
    s: Seq<Bucket>,
    position: u32,
    impressions: u64,
    c: u64,
    i: u64,
    k: u64,
)
    requires
        curve_wf(s),
        bucket_at(s, position) == Some((c, i)),
        spec_project_clicks(s, position, impressions) == Ok::<u64, SerpError>(k),
    ensures
        i > 0,
        c <= i,
        2 * k * i <= 2 * impressions * c + i < 2 * (k + 1) * i,
        k <= impressions,
{
    let j = insertion_point(s, position) as int;
    lemma_insertion_point_bounds(s, position);
    assert(s[j].1 <= s[j].2);
    let rate = Rate { clicks: c, impressions: i };
    crate::rate::lemma_projection_is_nearest_click(rate, impressions);
    let p = rate.projected(impressions);
    assert(0 <= p <= impressions) by (nonlinear_arith)
        requires
            2 * p * i <= 2 * impressions * c + i < 2 * (p + 1) * i,
            c <= i,
            i > 0,
            impressions >= 0,
    ;
    assert(k == p);
}

/// Law: a curve never interpolates: a position that no accepted observation
/// fell in has no rate, only [`SerpError::PositionNotInCurve`].
pub proof fn lemma_unobserved_position_not_in_curve(obs: Seq<Observation>, q: u32)
    requires
        all_accepted(obs),
        !observations_seen_at(obs, q),
    ensures
        spec_ctr_at(observe_all(obs), q) == Err::<Rate, SerpError>(SerpError::PositionNotInCurve(q)),
{
    lemma_curve_pools_observations(obs);
    assert(bucket_at(observe_all(obs), q) is None);
}

/// Law: projecting a bucket's own rate at its own impressions gives back its
/// own clicks: a projection restates the observed rate.
pub proof fn lemma_projection_restates_observed_rate(s: Seq<Bucket>, q: u32, c: u64, i: u64)
    requires
        curve_wf(s),
        bucket_at(s, q) == Some((c, i)),
        i > 0,
    ensures
        spec_project_clicks(s, q, i) == Ok::<u64, SerpError>(c),
{
    let rate = Rate { clicks: c, impressions: i };
    assert(2 * i * c + i == (c as int) * (2 * (i as int)) + i) by (nonlinear_arith);
    vstd::arithmetic::div_mod::lemma_fundamental_div_mod_converse(
        2 * i * c + i,
        2 * (i as int),
        c as int,
        i as int,
    );
    assert(rate.projected(i) == c);
}

/// Law: the projected click delta is antisymmetric: swapping `from` and `to`
/// negates it, and a position compared with itself gives 0.
pub proof fn lemma_click_delta_antisymmetric(
    s: Seq<Bucket>,
    from: u32,
    to: u32,
    impressions: u64,
    delta: i64,
)
    requires
        click_delta_fits(s, from, to, impressions),
        spec_projected_click_delta(s, from, to, impressions) == Ok::<i64, SerpError>(delta),
        delta != i64::MIN,
    ensures
        click_delta_fits(s, to, from, impressions),
        spec_projected_click_delta(s, to, from, impressions) == Ok::<i64, SerpError>((-delta) as i64),
        spec_projected_click_delta(s, from, from, impressions) == Ok::<i64, SerpError>(0),
{
}

/// Dropping the last bucket of an ascending curve removes exactly its position.
proof fn lemma_drop_last_buckets(s: Seq<Bucket>, q: u32)
    requires
        sorted_by_position(s),
        s.len() > 0,
    ensures
        sorted_by_position(s.drop_last()),
        bucket_at(s.drop_last(), q) == if q == s.last().0 {
            None
        } else {
            bucket_at(s, q)
        },
{
    let t = s.drop_last();
    assert(sorted_by_position(t)) by {
        assert forall|a: int, b: int| 0 <= a < b < t.len() implies #[trigger] t[a].0
            < #[trigger] t[b].0 by {
            assert(s[a].0 < s[b].0);
        }
    }
    if bucket_at(t, q) is Some {
        let j = insertion_point(t, q) as int;
        lemma_bucket_at_index(t, j);
        assert(t[j] == s[j]);
        assert(s[j].0 < s[s.len() - 1].0);
        lemma_bucket_at_index(s, j);
    } else if q != s.last().0 && bucket_at(s, q) is Some {
        let j = insertion_point(s, q) as int;
        lemma_bucket_at_index(s, j);
        assert(j != s.len() - 1);
        assert(t[j] == s[j]);
        lemma_bucket_at_index(t, j);
    }
}

/// Law: the points of a curve come ascending by position, each with a proper
/// rate that is its bucket's pooled rate, and every bucket with impressions
/// has its point.
pub proof fn lemma_points_match_buckets(s: Seq<Bucket>)
    requires
        curve_wf(s),
    ensures
        forall|a: int, b: int|
            0 <= a < b < rate_points(s).len() ==> #[trigger] rate_points(s)[a].0
                < #[trigger] rate_points(s)[b].0,
        forall|k: int|
            0 <= k < rate_points(s).len() ==> (#[trigger] rate_points(s)[k]).1.wf() && bucket_at(
                s,
                rate_points(s)[k].0,
            ) == Some((rate_points(s)[k].1.clicks, rate_points(s)[k].1.impressions)),
        forall|q: u32|
            (#[trigger] bucket_at(s, q) matches Some((_, i)) && i > 0) ==> exists|k: int|
                0 <= k < rate_points(s).len() && (#[trigger] rate_points(s)[k]).0 == q,
    decreases s.len(),
{
    if s.len() > 0 {
        let t = s.drop_last();
        let last = s.last();
        assert(t.len() + 1 == s.len());
        assert forall|i: int| 0 <= i < t.len() implies (#[trigger] t[i]).0 >= 1 && t[i].1 <= t[i].2 by {
            assert(t[i] == s[i]);
        }
        lemma_drop_last_buckets(s, 0);
        lemma_points_match_buckets(t);
        let pt = rate_points(t);
        let ps = rate_points(s);
        assert(last == s[s.len() - 1]);
        lemma_bucket_at_index(s, s.len() - 1);
        // Every point of the shorter curve sits at a position below the last bucket.
        assert forall|k: int| 0 <= k < pt.len() implies (#[trigger] pt[k]).0 < last.0 && bucket_at(
            s,
            pt[k].0,
        ) == bucket_at(t, pt[k].0) by {
            let q = pt[k].0;
            assert(bucket_at(t, q) is Some);
            lemma_drop_last_buckets(s, q);
            let j = insertion_point(t, q) as int;
            lemma_insertion_point_bounds(t, q);
            assert(t[j].0 == q);
            assert(t[j] == s[j]);
            assert(s[j].0 < s[s.len() - 1].0);
        }
        assert forall|k: int| 0 <= k < pt.len() implies #[trigger] ps[k] == pt[k] by {}
        assert forall|a: int, b: int| 0 <= a < b < ps.len() implies #[trigger] ps[a].0
            < #[trigger] ps[b].0 by {
            if b < pt.len() {
                assert(pt[a].0 < pt[b].0);
            } else {
                assert(ps[a] == pt[a]);
            }
        }
        assert forall|k: int| 0 <= k < ps.len() implies (#[trigger] ps[k]).1.wf() && bucket_at(
            s,
            ps[k].0,
        ) == Some((ps[k].1.clicks, ps[k].1.impressions)) by {
            if k < pt.len() {
                assert(ps[k] == pt[k]);
                assert(pt[k].1.wf());
            } else {
                assert(s[s.len() - 1].1 <= s[s.len() - 1].2);
            }
        }
        assert forall|q: u32|
            (#[trigger] bucket_at(s, q) matches Some((_, i)) && i > 0) implies exists|k: int|
                0 <= k < ps.len() && (#[trigger] ps[k]).0 == q by {
            lemma_drop_last_buckets(s, q);
            if q == last.0 {
                assert(ps[ps.len() - 1].0 == q);
            } else {
                assert(bucket_at(t, q) == bucket_at(s, q));
                let k = choose|k: int| 0 <= k < pt.len() && (#[trigger] pt[k]).0 == q;
                assert(ps[k] == pt[k]);
            }
        }
    }
}

} // verus!
