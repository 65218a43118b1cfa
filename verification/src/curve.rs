use vstd::prelude::*;

use crate::error::SerpError;
use crate::position::{observation_error, position_bucket, valid_position};
use crate::rate::{saturated, spec_ctr, Rate};
use crate::sums::sum_of;

verus! {

/// One bucket of a curve: (whole-number position, pooled clicks, pooled impressions).
pub type Bucket = (u32, u64, u64);

/// Buckets strictly ascending by position (so no position occurs twice).
pub open spec fn sorted_by_position(s: Seq<Bucket>) -> bool {
    forall|i: int, j: int| 0 <= i < j < s.len() ==> #[trigger] s[i].0 < #[trigger] s[j].0
}

/// The invariant of a curve's buckets: ascending positions, every position at
/// least 1, and never more clicks than impressions in a bucket.
pub open spec fn curve_wf(s: Seq<Bucket>) -> bool {
    &&& sorted_by_position(s)
    &&& forall|i: int| 0 <= i < s.len() ==> (#[trigger] s[i]).0 >= 1 && s[i].1 <= s[i].2
}

/// The number of leading buckets whose position is below `p`: where `p` is
/// found, or would be inserted, in an ascending curve.
pub open spec fn insertion_point(s: Seq<Bucket>, p: u32) -> nat
    decreases s.len(),
{
    if s.len() == 0 {
        0
    } else if s[0].0 < p {
        1 + insertion_point(s.drop_first(), p)
    } else {
        0
    }
}

/// The pooled `(clicks, impressions)` of the bucket at position `p`, if the
/// curve has one.
pub open spec fn bucket_at(s: Seq<Bucket>, p: u32) -> Option<(u64, u64)> {
    let k = insertion_point(s, p) as int;
    if k < s.len() && s[k].0 == p {
        Some((s[k].1, s[k].2))
    } else {
        None
    }
}

/// A bucket after pooling `(clicks, impressions)` into it; a missing bucket
/// starts from the observation itself.
pub open spec fn pooled(old_bucket: Option<(u64, u64)>, clicks: u64, impressions: u64) -> (
    u64,
    u64,
) {
    match old_bucket {
        Some((c, i)) => (saturated(c + clicks), saturated(i + impressions)),
        None => (clicks, impressions),
    }
}

/// The buckets after folding the observation `(p, clicks, impressions)` into
/// bucket `p`: its counts grow (saturating at `u64::MAX`), or a new bucket is
/// inserted in position order.
pub open spec fn observed(s: Seq<Bucket>, p: u32, clicks: u64, impressions: u64) -> Seq<Bucket> {
    let k = insertion_point(s, p) as int;
    if k < s.len() && s[k].0 == p {
        s.update(k, (p, saturated(s[k].1 + clicks), saturated(s[k].2 + impressions)))
    } else {
        s.insert(k, (p, clicks, impressions))
    }
}

/// The insertion point is the length of the prefix below `p`.
pub proof fn lemma_insertion_point_bounds(s: Seq<Bucket>, p: u32)
    ensures
        insertion_point(s, p) <= s.len(),
        forall|i: int| 0 <= i < insertion_point(s, p) ==> #[trigger] s[i].0 < p,
        insertion_point(s, p) < s.len() ==> s[insertion_point(s, p) as int].0 >= p,
    decreases s.len(),
{
    if s.len() > 0 && s[0].0 < p {
        lemma_insertion_point_bounds(s.drop_first(), p);
        assert forall|i: int| 0 <= i < insertion_point(s, p) implies #[trigger] s[i].0 < p by {
            if i > 0 {
                assert(s[i] == s.drop_first()[i - 1]);
            }
        }
    }
}

/// A prefix below `p` followed by a position `>= p` (or the end) pins the
/// insertion point.
pub proof fn lemma_insertion_point_is(s: Seq<Bucket>, p: u32, k: int)
    requires
        0 <= k <= s.len(),
        forall|i: int| 0 <= i < k ==> #[trigger] s[i].0 < p,
        k < s.len() ==> s[k].0 >= p,
    ensures
        insertion_point(s, p) == k,
    decreases k,
{
    if k > 0 {
        assert(s[0].0 < p);
        assert forall|i: int| 0 <= i < k - 1 implies #[trigger] s.drop_first()[i].0 < p by {
            assert(s.drop_first()[i] == s[i + 1]);
        }
        lemma_insertion_point_is(s.drop_first(), p, k - 1);
    }
}

/// In an ascending curve, the bucket at index `j` is what `bucket_at` finds
/// for its position.
pub proof fn lemma_bucket_at_index(s: Seq<Bucket>, j: int)
    requires
        sorted_by_position(s),
        0 <= j < s.len(),
    ensures
        insertion_point(s, s[j].0) == j,
        bucket_at(s, s[j].0) == Some((s[j].1, s[j].2)),
{
    assert forall|i: int| 0 <= i < j implies #[trigger] s[i].0 < s[j].0 by {
        assert(s[i].0 < s[j].0);
    }
    lemma_insertion_point_is(s, s[j].0, j);
}

/// Folding an observation into bucket `p` keeps the invariant, pools the
/// observation into bucket `p`, and leaves every other bucket as it was.
pub proof fn lemma_observed(s: Seq<Bucket>, p: u32, clicks: u64, impressions: u64)
    requires
        curve_wf(s),
        p >= 1,
        clicks <= impressions,
    ensures
        curve_wf(observed(s, p, clicks, impressions)),
        bucket_at(observed(s, p, clicks, impressions), p) == Some(
            pooled(bucket_at(s, p), clicks, impressions),
        ),
        forall|q: u32|
            q != p ==> bucket_at(#[trigger] observed(s, p, clicks, impressions), q) == bucket_at(
                s,
                q,
            ),
{
    lemma_insertion_point_bounds(s, p);
    let k = insertion_point(s, p) as int;
    let t = observed(s, p, clicks, impressions);
    if k < s.len() && s[k].0 == p {
        assert(t.len() == s.len());
        assert forall|i: int| 0 <= i < t.len() implies (#[trigger] t[i]).0 == s[i].0 by {}
        assert(sorted_by_position(t));
        lemma_bucket_at_index(t, k);
        assert forall|q: u32| q != p implies bucket_at(#[trigger] observed(s, p, clicks, impressions), q)
            == bucket_at(s, q) by {
            if bucket_at(s, q) is Some {
                let j = insertion_point(s, q) as int;
                lemma_bucket_at_index(s, j);
                lemma_bucket_at_index(t, j);
            } else if bucket_at(t, q) is Some {
                let j = insertion_point(t, q) as int;
                lemma_bucket_at_index(t, j);
                lemma_bucket_at_index(s, j);
            }
        }
    } else {
        assert(t.len() == s.len() + 1);
        assert forall|i: int| k < i < t.len() implies #[trigger] t[i].0 > p by {
            assert(t[i] == s[i - 1]);
            if i - 1 > k {
                assert(s[k].0 < s[i - 1].0);
            }
        }
        assert forall|i: int| 0 <= i < k implies #[trigger] t[i].0 < p by {
            assert(t[i] == s[i]);
        }
        assert forall|a: int, b: int| 0 <= a < b < t.len() implies #[trigger] t[a].0
            < #[trigger] t[b].0 by {
            if b < k {
                assert(t[a] == s[a] && t[b] == s[b]);
            } else if a > k {
                assert(t[a] == s[a - 1] && t[b] == s[b - 1]);
                assert(s[a - 1].0 < s[b - 1].0);
            } else if a < k && b > k {
                assert(t[a].0 < p);
            }
        }
        lemma_bucket_at_index(t, k);
        assert forall|q: u32| q != p implies bucket_at(#[trigger] observed(s, p, clicks, impressions), q)
            == bucket_at(s, q) by {
            if bucket_at(s, q) is Some {
                let j = insertion_point(s, q) as int;
                lemma_bucket_at_index(s, j);
                if j < k {
                    assert(t[j] == s[j]);
                    lemma_bucket_at_index(t, j);
                } else {
                    assert(t[j + 1] == s[j]);
                    lemma_bucket_at_index(t, j + 1);
                }
            } else if bucket_at(t, q) is Some {
                let j = insertion_point(t, q) as int;
                lemma_bucket_at_index(t, j);
                if j < k {
                    assert(t[j] == s[j]);
                    lemma_bucket_at_index(s, j);
                } else {
                    assert(j != k);
                    assert(t[j] == s[j - 1]);
                    lemma_bucket_at_index(s, j - 1);
                }
            }
        }
    }
}

/// What [`CtrCurve::ctr_at`] returns for position `p`.
pub open spec fn spec_ctr_at(s: Seq<Bucket>, p: u32) -> Result<Rate, SerpError> {
    match bucket_at(s, p) {
        Some((clicks, impressions)) => spec_ctr(clicks, impressions),
        None => Err(SerpError::PositionNotInCurve(p)),
    }
}

/// What [`CtrCurve::project_clicks`] returns for position `p` and `impressions`.
pub open spec fn spec_project_clicks(s: Seq<Bucket>, p: u32, impressions: u64) -> Result<
    u64,
    SerpError,
> {
    match spec_ctr_at(s, p) {
        Ok(rate) => Ok(rate.projected(impressions) as u64),
        Err(e) => Err(e),
    }
}

/// The populated buckets that have a rate, as `(position, rate)`, in curve order.
pub open spec fn rate_points(s: Seq<Bucket>) -> Seq<(u32, Rate)>
    decreases s.len(),
{
    if s.len() == 0 {
        Seq::empty()
    } else if s.last().2 > 0 {
        rate_points(s.drop_last()).push(
            (s.last().0, Rate { clicks: s.last().1, impressions: s.last().2 }),
        )
    } else {
        rate_points(s.drop_last())
    }
}

/// What [`CtrCurve::projected_click_delta`] returns.
pub open spec fn spec_projected_click_delta(s: Seq<Bucket>, from: u32, to: u32, impressions: u64) -> Result<
    i64,
    SerpError,
> {
    match spec_project_clicks(s, from, impressions) {
        Err(e) => Err(e),
        Ok(before) => match spec_project_clicks(s, to, impressions) {
            Err(e) => Err(e),
            Ok(after) => Ok((after - before) as i64),
        },
    }
}

/// The difference of two projections is representable as an `i64`.
pub open spec fn click_delta_fits(s: Seq<Bucket>, from: u32, to: u32, impressions: u64) -> bool {
    match (spec_project_clicks(s, from, impressions), spec_project_clicks(s, to, impressions)) {
        (Ok(before), Ok(after)) => i64::MIN <= after - before <= i64::MAX,
        _ => true,
    }
}

/// An observation `(position, clicks, impressions)`; the position is its whole
/// part, as [`CtrCurve::observe`] takes it.
pub type Observation = (Option<u64>, u64, u64);

/// The buckets of an empty curve after observing `obs` in order (every
/// observation assumed accepted).
pub open spec fn observe_all(obs: Seq<Observation>) -> Seq<Bucket>
    decreases obs.len(),
{
    if obs.len() == 0 {
        Seq::empty()
    } else {
        observed(
            observe_all(obs.drop_last()),
            position_bucket(obs.last().0),
            obs.last().1,
            obs.last().2,
        )
    }
}

/// Some observation in `obs` falls in bucket `q`.
pub open spec fn observations_seen_at(obs: Seq<Observation>, q: u32) -> bool {
    exists|k: int| 0 <= k < obs.len() && position_bucket(#[trigger] obs[k].0) == q
}

/// Sum of the clicks of the observations in `obs` that fall in bucket `q`.
pub open spec fn observed_clicks_at(obs: Seq<Observation>, q: u32) -> int {
    sum_of(
        obs,
        |o: Observation|
            if position_bucket(o.0) == q {
                o.1 as int
            } else {
                0
            },
    )
}

/// Sum of the impressions of the observations in `obs` that fall in bucket `q`.
pub open spec fn observed_impressions_at(obs: Seq<Observation>, q: u32) -> int {
    sum_of(
        obs,
        |o: Observation|
            if position_bucket(o.0) == q {
                o.2 as int
            } else {
                0
            },
    )
}

/// The bucket `q` that observing `obs` should produce: absent when nothing fell
/// in it, else the sums of what fell in it, saturated at `u64::MAX`.
pub open spec fn pooled_observations(obs: Seq<Observation>, q: u32) -> Option<(u64, u64)> {
    if observations_seen_at(obs, q) {
        Some((saturated(observed_clicks_at(obs, q)), saturated(observed_impressions_at(obs, q))))
    } else {
        None
    }
}

/// Every observation in `obs` is accepted by [`CtrCurve::observe`].
pub open spec fn all_accepted(obs: Seq<Observation>) -> bool {
    forall|k: int| 0 <= k < obs.len() ==> observation_error(#[trigger] obs[k].0, obs[k].1, obs[k].2) is None
}

/// The per-bucket sums of observations are never negative, and are zero for a
/// bucket that nothing fell in.
pub proof fn lemma_observed_sums(obs: Seq<Observation>, q: u32)
    ensures
        observed_clicks_at(obs, q) >= 0,
        observed_impressions_at(obs, q) >= 0,
        !observations_seen_at(obs, q) ==> observed_clicks_at(obs, q) == 0
            && observed_impressions_at(obs, q) == 0,
    decreases obs.len(),
{
    if obs.len() > 0 {
        let pre = obs.drop_last();
        lemma_observed_sums(pre, q);
        if observations_seen_at(pre, q) {
            let k = choose|k: int| 0 <= k < pre.len() && position_bucket(#[trigger] pre[k].0) == q;
            assert(obs[k] == pre[k]);
        }
        if position_bucket(obs.last().0) == q {
            assert(position_bucket(obs[obs.len() - 1].0) == q);
        }
    }
}

/// Law: a curve built from accepted observations holds, for every whole-number
/// position, exactly the pooled clicks and impressions of the observations that
/// fell there, and no bucket where none did.
pub proof fn lemma_curve_pools_observations(obs: Seq<Observation>)
    requires
        all_accepted(obs),
    ensures
        curve_wf(observe_all(obs)),
        forall|q: u32| #[trigger] bucket_at(observe_all(obs), q) == pooled_observations(obs, q),
    decreases obs.len(),
{
    if obs.len() == 0 {
        assert forall|q: u32| #[trigger] bucket_at(observe_all(obs), q) == pooled_observations(obs, q) by {
            assert(!observations_seen_at(obs, q));
        }
    } else {
        let pre = obs.drop_last();
        assert forall|k: int| 0 <= k < pre.len() implies observation_error(#[trigger] pre[k].0, pre[k].1, pre[k].2) is None by {
            assert(pre[k] == obs[k]);
        }
        lemma_curve_pools_observations(pre);
        let last = obs.last();
        assert(observation_error(obs[obs.len() - 1].0, obs[obs.len() - 1].1, obs[obs.len() - 1].2) is None);
        let p = position_bucket(last.0);
        assert(valid_position(last.0));
        assert(p >= 1);
        lemma_observed(observe_all(pre), p, last.1, last.2);
        assert(observe_all(obs) == observed(observe_all(pre), p, last.1, last.2));
        assert forall|q: u32| #[trigger] bucket_at(observe_all(obs), q) == pooled_observations(obs, q) by {
            lemma_observed_sums(pre, q);
            if observations_seen_at(pre, q) {
                let k = choose|k: int| 0 <= k < pre.len() && position_bucket(#[trigger] pre[k].0) == q;
                assert(obs[k] == pre[k]);
            }
            if q == p {
                assert(position_bucket(obs[obs.len() - 1].0) == q);
            }
            if observations_seen_at(obs, q) && q != p {
                let k = choose|k: int| 0 <= k < obs.len() && position_bucket(#[trigger] obs[k].0) == q;
                assert(k != obs.len() - 1);
                assert(pre[k] == obs[k]);
            }
            assert(bucket_at(observe_all(pre), q) == pooled_observations(pre, q));
        }
    }
}

/// A CTR-by-position curve built from observed data.
///
/// Positions are stored as whole-number buckets (position `3.4` falls in bucket `3`).
/// Each bucket accumulates clicks and impressions, so the curve's CTR for a bucket is
/// the real pooled rate of the data you fed it, never an assumed constant.
#[derive(Debug, PartialEq, Eq)]
pub struct CtrCurve {
    buckets: Vec<Bucket>,
}

impl View for CtrCurve {
    type V = Seq<Bucket>;

    /// The buckets, ascending by position.
    closed spec fn view(&self) -> Seq<Bucket> {
        self.buckets@
    }
}

impl Clone for CtrCurve {
    /// A copy with the same buckets.
    fn clone(&self) -> (copy: Self)
        ensures
            copy@ == self@,
    {
        proof {
            use_type_invariant(self);
        }
        let mut buckets: Vec<Bucket> = Vec::new();
        let mut i: usize = 0;
        while i < self.buckets.len()
            invariant
                0 <= i <= self@.len(),
                buckets@ == self@.take(i as int),
            decreases self@.len() - i,
        {
            buckets.push(self.buckets[i]);
            i = i + 1;
            assert(buckets@ =~= self@.take(i as int));
        }
        assert(buckets@ =~= self@);
        CtrCurve { buckets }
    }
}

impl Default for CtrCurve {
    /// An empty curve.
    fn default() -> (curve: Self)
        ensures
            curve@ == Seq::<Bucket>::empty(),
    {
        CtrCurve::new()
    }
}

impl CtrCurve {
    /// The curve's invariant (see [`curve_wf`]): every curve satisfies it;
    /// `use_type_invariant` brings it into a proof.
    #[verifier::type_invariant]
    pub open spec fn wf(self) -> bool {
        curve_wf(self@)
    }

    /// An empty curve.
    pub fn new() -> (curve: Self)
        ensures
            curve@ == Seq::<Bucket>::empty(),
    {
        CtrCurve { buckets: Vec::new() }
    }

    /// Index of the first bucket whose position is not below `p`.
    fn search(&self, p: u32) -> (k: usize)
        requires
            curve_wf(self@),
        ensures
            k == insertion_point(self@, p),
    {
        let mut lo: usize = 0;
        let mut hi: usize = self.buckets.len();
        while lo < hi
            invariant
                0 <= lo <= hi <= self@.len(),
                sorted_by_position(self@),
                forall|i: int| 0 <= i < lo ==> #[trigger] self@[i].0 < p,
                forall|i: int| hi <= i < self@.len() ==> #[trigger] self@[i].0 >= p,
            decreases hi - lo,
        {
            let mid = lo + (hi - lo) / 2;
            if self.buckets[mid].0 < p {
                assert forall|i: int| 0 <= i < mid + 1 implies #[trigger] self@[i].0 < p by {
                    if i < mid {
                        assert(self@[i].0 < self@[mid as int].0);
                    }
                }
                lo = mid + 1;
            } else {
                assert forall|i: int| mid <= i < self@.len() implies #[trigger] self@[i].0 >= p by {
                    if i > mid {
                        assert(self@[mid as int].0 < self@[i].0);
                    }
                }
                hi = mid;
            }
        }
        proof {
            lemma_insertion_point_is(self@, p, lo as int);
        }
        lo
    }

    /// Index of the bucket at position `p`, if there is one.
    fn find(&self, p: u32) -> (found: Option<usize>)
        requires
            curve_wf(self@),
        ensures
            match found {
                Some(k) => k < self@.len() && self@[k as int].0 == p && bucket_at(self@, p) == Some(
                    (self@[k as int].1, self@[k as int].2),
                ),
                None => bucket_at(self@, p) is None,
            },
    {
        let k = self.search(p);
        proof {
            lemma_insertion_point_bounds(self@, p);
        }
        if k < self.buckets.len() && self.buckets[k].0 == p {
            Some(k)
        } else {
            None
        }
    }

    /// Fold one observation into the curve.
    ///
    /// `position` is the whole part of the observed average position (see
    /// [`valid_position`]). A position that is not a finite number `>= 1.0` is
    /// rejected with [`SerpError::InvalidPosition`], and an inconsistent row with
    /// [`SerpError::ClicksExceedImpressions`]; a rejected observation leaves the
    /// curve as it was. Otherwise the observation is pooled into the bucket of
    /// its position (saturated at `u32::MAX`), whose counts add up with
    /// saturation at `u64::MAX`.
    pub fn observe(&mut self, position: Option<u64>, clicks: u64, impressions: u64) -> (r: Result<
        (),
        SerpError,
    >)
        ensures
            match observation_error(position, clicks, impressions) {
                Some(e) => r == Err::<(), SerpError>(e) && final(self)@ == old(self)@,
                None => r == Ok::<(), SerpError>(()) && final(self)@ == observed(
                    old(self)@,
                    position_bucket(position),
                    clicks,
                    impressions,
                ),
            },
            valid_position(position) && clicks <= impressions ==> ({
                let w = position->0;
                let b: u32 = if w <= u32::MAX {
                    w as u32
                } else {
                    u32::MAX
                };
                &&& bucket_at(final(self)@, b) == Some(
                    match bucket_at(old(self)@, b) {
                        Some((c0, i0)) => (
                            if c0 + clicks > u64::MAX {
                                u64::MAX
                            } else {
                                (c0 + clicks) as u64
                            },
                            if i0 + impressions > u64::MAX {
                                u64::MAX
                            } else {
                                (i0 + impressions) as u64
                            },
                        ),
                        None => (clicks, impressions),
                    },
                )
                &&& forall|q: u32|
                    q != b ==> #[trigger] bucket_at(final(self)@, q) == bucket_at(old(self)@, q)
            }),
    {
        proof {
            use_type_invariant(&*self);
        }
        let w: u64 = match position {
            Some(w) => w,
            None => 0,
        };
        if w == 0 {
            return Err(SerpError::InvalidPosition);
        }
        if clicks > impressions {
            return Err(SerpError::ClicksExceedImpressions { clicks, impressions });
        }
        let bucket: u32 = if w > u32::MAX as u64 {
            u32::MAX
        } else {
            w as u32
        };
        assert(bucket == position_bucket(position));
        let k = self.search(bucket);
        proof {
            lemma_insertion_point_bounds(self@, bucket);
            lemma_observed(self@, bucket, clicks, impressions);
        }
        let mut buckets: Vec<Bucket> = Vec::new();
        std::mem::swap(&mut buckets, &mut self.buckets);
        if k < buckets.len() && buckets[k].0 == bucket {
            let (_, c0, i0) = buckets[k];
            buckets.set(k, (bucket, c0.saturating_add(clicks), i0.saturating_add(impressions)));
        } else {
            buckets.insert(k, (bucket, clicks, impressions));
        }
        self.buckets = buckets;
        Ok(())
    }

    /// Number of populated position buckets.
    pub fn len(&self) -> (n: usize)
        ensures
            n == self@.len(),
    {
        self.buckets.len()
    }

    /// Whether the curve holds no observations.
    pub fn is_empty(&self) -> (empty: bool)
        ensures
            empty == (self@.len() == 0),
    {
        self.buckets.len() == 0
    }

    /// Total impressions observed for a bucket, or 0 if the bucket is absent.
    pub fn impressions_at(&self, position: u32) -> (impressions: u64)
        ensures
            impressions == match bucket_at(self@, position) {
                Some((_, i)) => i,
                None => 0,
            },
    {
        proof {
            use_type_invariant(self);
        }
        match self.find(position) {
            Some(k) => self.buckets[k].2,
            None => 0,
        }
    }

    /// Pooled CTR observed at a whole-number position.
    ///
    /// [`SerpError::PositionNotInCurve`] when nothing was ever observed at that position,
    /// and [`SerpError::NoImpressions`] when the bucket exists but holds zero impressions.
    /// The curve never interpolates or extrapolates: an unobserved position is an error,
    /// not a guess.
    pub fn ctr_at(&self, position: u32) -> (r: Result<Rate, SerpError>)
        ensures
            r == spec_ctr_at(self@, position),
            r matches Ok(rate) ==> rate.wf(),
            bucket_at(self@, position) is None ==> r == Err::<Rate, SerpError>(
                SerpError::PositionNotInCurve(position),
            ),
            r matches Ok(rate) ==> bucket_at(self@, position) == Some(
                (rate.clicks, rate.impressions),
            ),
            bucket_at(self@, position) matches Some((c, i)) && i == 0 ==> r == Err::<Rate, SerpError>(
                SerpError::NoImpressions,
            ),
    {
        proof {
            use_type_invariant(self);
        }
        match self.find(position) {
            Some(k) => {
                let (_, clicks, impressions) = self.buckets[k];
                crate::rate::ctr(clicks, impressions)
            },
            None => Err(SerpError::PositionNotInCurve(position)),
        }
    }

    /// Every populated bucket as `(position, rate)`, ascending by position.
    ///
    /// Buckets holding zero impressions are skipped, because they have no rate.
    pub fn points(&self) -> (points: Vec<(u32, Rate)>)
        ensures
            points@ == rate_points(self@),
    {
        proof {
            use_type_invariant(self);
        }
        let mut points: Vec<(u32, Rate)> = Vec::new();
        let mut i: usize = 0;
        while i < self.buckets.len()
            invariant
                0 <= i <= self@.len(),
                points@ == rate_points(self@.take(i as int)),
            decreases self@.len() - i,
        {
            let (position, clicks, impressions) = self.buckets[i];
            assert(self@.take(i + 1).drop_last() =~= self@.take(i as int));
            if impressions > 0 {
                points.push((position, Rate { clicks, impressions }));
            }
            i = i + 1;
        }
        assert(self@.take(self@.len() as int) =~= self@);
        points
    }

    /// Clicks you would expect from `impressions` at `position`, using this curve.
    ///
    /// The result is `impressions * ctr_at(position)`, rounded to the nearest whole click
    /// (halves up). It is a restatement of your own observed rate at a volume you supply,
    /// not a forecast. Errors are those of [`CtrCurve::ctr_at`].
    pub fn project_clicks(&self, position: u32, impressions: u64) -> (r: Result<u64, SerpError>)
        ensures
            r == spec_project_clicks(self@, position, impressions),
            r matches Ok(clicks) ==> clicks <= impressions,
    {
        let rate = self.ctr_at(position)?;
        Ok(rate.project(impressions))
    }

    /// Difference in projected clicks between two positions at the same impression volume.
    ///
    /// Positive when `to` earns more than `from`. Errors are those of
    /// [`CtrCurve::ctr_at`], for `from` first, then for `to`.
    pub fn projected_click_delta(&self, from: u32, to: u32, impressions: u64) -> (r: Result<
        i64,
        SerpError,
    >)
        requires
            click_delta_fits(self@, from, to, impressions),
        ensures
            r == spec_projected_click_delta(self@, from, to, impressions),
            spec_project_clicks(self@, from, impressions) is Ok && spec_project_clicks(
                self@,
                to,
                impressions,
            ) is Ok ==> r == Ok::<i64, SerpError>(
                (spec_project_clicks(self@, to, impressions)->Ok_0 - spec_project_clicks(
                    self@,
                    from,
                    impressions,
                )->Ok_0) as i64,
            ),
            spec_project_clicks(self@, from, impressions) is Err ==> r == Err::<i64, SerpError>(
                spec_project_clicks(self@, from, impressions)->Err_0,
            ),
            spec_project_clicks(self@, from, impressions) is Ok && spec_project_clicks(
                self@,
                to,
                impressions,
            ) is Err ==> r == Err::<i64, SerpError>(
                spec_project_clicks(self@, to, impressions)->Err_0,
            ),
    {
        let before = self.project_clicks(from, impressions)?;
        let after = self.project_clicks(to, impressions)?;
        Ok((after as i128 - before as i128) as i64)
    }

    /// Build a curve from `(position, clicks, impressions)` observations, folded
    /// in order with [`CtrCurve::observe`].
    ///
    /// The first observation that [`CtrCurve::observe`] refuses makes the whole
    /// build fail with its error.
    pub fn from_observations(observations: &[Observation]) -> (r: Result<Self, SerpError>)
        ensures
            match r {
                Ok(curve) => {
                    &&& all_accepted(observations@)
                    &&& curve@ == observe_all(observations@)
                    &&& forall|q: u32| #[trigger] bucket_at(curve@, q) == pooled_observations(observations@, q)
                },
                Err(e) => exists|k: int|
                    0 <= k < observations@.len() && all_accepted(observations@.take(k))
                        && observation_error(
                        #[trigger] observations@[k].0,
                        observations@[k].1,
                        observations@[k].2,
                    ) == Some(e),
            },
    {
        let mut curve = CtrCurve::new();
        let mut i: usize = 0;
        while i < observations.len()
            invariant
                0 <= i <= observations@.len(),
                curve@ == observe_all(observations@.take(i as int)),
                all_accepted(observations@.take(i as int)),
            decreases observations@.len() - i,
        {
            let (position, clicks, impressions) = observations[i];
            let ghost before = observations@.take(i as int);
            assert(observations@.take(i + 1).drop_last() =~= before);
            match curve.observe(position, clicks, impressions) {
                Err(e) => {
                    assert(observation_error(observations@[i as int].0, observations@[i as int].1, observations@[i as int].2) == Some(e));
                    return Err(e);
                },
                Ok(()) => {},
            }
            assert forall|k: int| 0 <= k < i + 1 implies observation_error(
                #[trigger] observations@.take(i + 1)[k].0,
                observations@.take(i + 1)[k].1,
                observations@.take(i + 1)[k].2,
            ) is None by {
                if k < i {
                    assert(observations@.take(i + 1)[k] == before[k]);
                }
            }
            i = i + 1;
        }
        assert(observations@.take(observations@.len() as int) =~= observations@);
        proof {
            lemma_curve_pools_observations(observations@);
        }
        Ok(curve)
    }
}

} // verus!
