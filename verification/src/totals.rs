use vstd::prelude::*;

use crate::error::SerpError;
use crate::rate::{ctr, saturated, Rate};
use crate::sums::{lemma_permutation_contains, lemma_sum_of_append, lemma_sum_of_permutation, sum_of};

verus! {

/// Aggregate totals for a set of rows: clicks, impressions and the pooled CTR.
#[derive(Debug, Clone, Copy, PartialEq, Eq, Structural)]
pub struct Totals {
    /// Summed clicks.
    pub clicks: u64,
    /// Summed impressions.
    pub impressions: u64,
    /// Pooled CTR, i.e. `clicks / impressions`, not a mean of per-row CTRs.
    pub ctr: Rate,
}

/// Sum of the clicks column of `(clicks, impressions)` rows.
pub open spec fn total_clicks(rows: Seq<(u64, u64)>) -> int {
    sum_of(rows, |row: (u64, u64)| row.0 as int)
}

/// Sum of the impressions column of `(clicks, impressions)` rows.
pub open spec fn total_impressions(rows: Seq<(u64, u64)>) -> int {
    sum_of(rows, |row: (u64, u64)| row.1 as int)
}

/// Row `k` is the first row with more clicks than impressions.
pub open spec fn first_inconsistent_row(rows: Seq<(u64, u64)>, k: int) -> bool {
    &&& 0 <= k < rows.len()
    &&& rows[k].0 > rows[k].1
    &&& forall|j: int| 0 <= j < k ==> (#[trigger] rows[j]).0 <= rows[j].1
}

/// What [`pooled_totals`] returns for these rows.
pub open spec fn spec_pooled_totals(rows: Seq<(u64, u64)>) -> Result<Totals, SerpError> {
    if rows.len() == 0 {
        Err(SerpError::EmptyInput)
    } else if exists|k: int| first_inconsistent_row(rows, k) {
        let k = choose|k: int| first_inconsistent_row(rows, k);
        Err(SerpError::ClicksExceedImpressions { clicks: rows[k].0, impressions: rows[k].1 })
    } else if total_impressions(rows) == 0 {
        Err(SerpError::NoImpressions)
    } else {
        let clicks = saturated(total_clicks(rows));
        let impressions = saturated(total_impressions(rows));
        Ok(Totals { clicks, impressions, ctr: Rate { clicks, impressions } })
    }
}

/// Pool `(clicks, impressions)` rows into a single [`Totals`].
///
/// Pooling is not the same as averaging the CTR column, and the difference is the
/// classic Simpson's-paradox trap in SEO reporting. Sums saturate at `u64::MAX`.
///
/// [`SerpError::EmptyInput`] for an empty slice, [`SerpError::ClicksExceedImpressions`]
/// for the first row with more clicks than impressions, [`SerpError::NoImpressions`]
/// when the totals contain no impressions.
pub fn pooled_totals(rows: &[(u64, u64)]) -> (r: Result<Totals, SerpError>)
    ensures
        r == spec_pooled_totals(rows@),
        r matches Ok(totals) ==> totals.ctr.wf(),
        r matches Ok(totals) ==> totals.ctr == (Rate {
            clicks: totals.clicks,
            impressions: totals.impressions,
        }),
        r matches Ok(totals) ==> totals.clicks as int == clamp_u64(
            sum_of(rows@, |row: (u64, u64)| row.0 as int),
        ) && totals.impressions as int == clamp_u64(sum_of(rows@, |row: (u64, u64)| row.1 as int)),
{
    proof {
        lemma_pooled_totals_are_pooled_counts(rows@);
    }
    if rows.len() == 0 {
        return Err(SerpError::EmptyInput);
    }
    let mut clicks: u64 = 0;
    let mut impressions: u64 = 0;
    let mut i: usize = 0;
    while i < rows.len()
        invariant
            0 <= i <= rows@.len(),
            0 <= total_clicks(rows@.take(i as int)) <= total_impressions(rows@.take(i as int)),
            clicks == saturated(total_clicks(rows@.take(i as int))),
            impressions == saturated(total_impressions(rows@.take(i as int))),
            forall|j: int| 0 <= j < i ==> (#[trigger] rows@[j]).0 <= rows@[j].1,
        decreases rows@.len() - i,
    {
        let (c, imp) = rows[i];
        if c > imp {
            assert(first_inconsistent_row(rows@, i as int));
            assert forall|k: int| #[trigger] first_inconsistent_row(rows@, k) implies k == i by {
                if k < i {
                    assert(rows@[k].0 <= rows@[k].1);
                } else if k > i {
                    assert(rows@[i as int].0 <= rows@[i as int].1);
                }
            }
            return Err(SerpError::ClicksExceedImpressions { clicks: c, impressions: imp });
        }
        assert(rows@.take(i + 1).drop_last() =~= rows@.take(i as int));
        assert(total_clicks(rows@.take(i + 1)) == total_clicks(rows@.take(i as int)) + c);
        assert(total_impressions(rows@.take(i + 1)) == total_impressions(rows@.take(i as int))
            + imp);
        clicks = clicks.saturating_add(c);
        impressions = impressions.saturating_add(imp);
        i = i + 1;
    }
    assert(rows@.take(rows@.len() as int) =~= rows@);
    assert(!exists|k: int| first_inconsistent_row(rows@, k));
    let rate = ctr(clicks, impressions)?;
    Ok(Totals { clicks, impressions, ctr: rate })
}

/// `x` capped at `u64::MAX`.
pub open spec fn clamp_u64(x: int) -> int {
    if x > u64::MAX {
        u64::MAX as int
    } else {
        x
    }
}

/// Law: pooled totals are the column sums of all the rows (capped at
/// `u64::MAX`), and their rate is exactly those pooled clicks over those pooled
/// impressions, never a mean of row rates or anything else.
pub proof fn lemma_pooled_totals_are_pooled_counts(rows: Seq<(u64, u64)>)
    ensures
        spec_pooled_totals(rows) matches Ok(t) ==> ({
            &&& t.ctr == (Rate { clicks: t.clicks, impressions: t.impressions })
            &&& t.clicks as int == clamp_u64(sum_of(rows, |row: (u64, u64)| row.0 as int))
            &&& t.impressions as int == clamp_u64(sum_of(rows, |row: (u64, u64)| row.1 as int))
            &&& t.impressions > 0
            &&& t.clicks <= t.impressions
        }),
{
    if spec_pooled_totals(rows) is Ok {
        assert forall|k: int| 0 <= k < rows.len() implies (#[trigger] rows[k]).0 <= rows[k].1 by {
            if rows[k].0 > rows[k].1 {
                lemma_first_inconsistent_row_exists(rows, k);
            }
        }
        lemma_totals_bounds(rows);
    }
}

/// Any row with more clicks than impressions means there is a first such row.
pub proof fn lemma_first_inconsistent_row_exists(rows: Seq<(u64, u64)>, k: int)
    requires
        0 <= k < rows.len(),
        rows[k].0 > rows[k].1,
    ensures
        exists|j: int| first_inconsistent_row(rows, j),
    decreases k,
{
    if exists|j: int| 0 <= j < k && (#[trigger] rows[j]).0 > rows[j].1 {
        let j = choose|j: int| 0 <= j < k && (#[trigger] rows[j]).0 > rows[j].1;
        lemma_first_inconsistent_row_exists(rows, j);
    } else {
        assert(first_inconsistent_row(rows, k));
    }
}

/// Rows that never have more clicks than impressions add up to no more clicks
/// than impressions, and to no negative count.
pub proof fn lemma_totals_bounds(rows: Seq<(u64, u64)>)
    requires
        forall|k: int| 0 <= k < rows.len() ==> (#[trigger] rows[k]).0 <= rows[k].1,
    ensures
        0 <= total_clicks(rows) <= total_impressions(rows),
    decreases rows.len(),
{
    if rows.len() > 0 {
        let pre = rows.drop_last();
        assert forall|k: int| 0 <= k < pre.len() implies (#[trigger] pre[k]).0 <= pre[k].1 by {
            assert(pre[k] == rows[k]);
        }
        lemma_totals_bounds(pre);
        assert(rows.last() == rows[rows.len() - 1]);
    }
}

/// Law: the totals of two pieces of a log add up to the totals of the whole.
pub proof fn lemma_totals_add_up(a: Seq<(u64, u64)>, b: Seq<(u64, u64)>)
    ensures
        total_clicks(a + b) == total_clicks(a) + total_clicks(b),
        total_impressions(a + b) == total_impressions(a) + total_impressions(b),
{
    lemma_sum_of_append(a, b, |row: (u64, u64)| row.0 as int);
    lemma_sum_of_append(a, b, |row: (u64, u64)| row.1 as int);
}

/// Law: pooling does not depend on the order of the rows. Any reordering of
/// rows that never have more clicks than impressions pools to the same result.
/// (Which inconsistent row is reported first does depend on the order.)
pub proof fn lemma_pooled_totals_order_irrelevant(rows: Seq<(u64, u64)>, rows2: Seq<(u64, u64)>)
    requires
        rows2.to_multiset() == rows.to_multiset(),
        forall|k: int| 0 <= k < rows.len() ==> (#[trigger] rows[k]).0 <= rows[k].1,
    ensures
        spec_pooled_totals(rows2) == spec_pooled_totals(rows),
{
    vstd::seq_lib::to_multiset_len(rows);
    vstd::seq_lib::to_multiset_len(rows2);
    assert forall|k: int| 0 <= k < rows2.len() implies (#[trigger] rows2[k]).0 <= rows2[k].1 by {
        assert(rows2.contains(rows2[k]));
        lemma_permutation_contains(rows, rows2, rows2[k]);
        let j = choose|j: int| 0 <= j < rows.len() && rows[j] == rows2[k];
        assert(rows[j].0 <= rows[j].1);
    }
    assert(!exists|k: int| first_inconsistent_row(rows, k));
    assert(!exists|k: int| first_inconsistent_row(rows2, k));
    lemma_sum_of_permutation(rows, rows2, |row: (u64, u64)| row.0 as int);
    lemma_sum_of_permutation(rows, rows2, |row: (u64, u64)| row.1 as int);
}

/// Law: splitting a pooled log into two parts that each have impressions, when
/// nothing saturates, splits its totals: the parts pool without error and their
/// clicks and impressions add up to those of the whole.
pub proof fn lemma_pooled_totals_split(a: Seq<(u64, u64)>, b: Seq<(u64, u64)>)
    requires
        spec_pooled_totals(a + b) is Ok,
        total_impressions(a) > 0,
        total_impressions(b) > 0,
        total_impressions(a + b) <= u64::MAX,
    ensures
        match (spec_pooled_totals(a), spec_pooled_totals(b), spec_pooled_totals(a + b)) {
            (Ok(ta), Ok(tb), Ok(t)) => ta.clicks + tb.clicks == t.clicks && ta.impressions
                + tb.impressions == t.impressions,
            _ => false,
        },
{
    let ab = a + b;
    assert forall|k: int| 0 <= k < ab.len() implies (#[trigger] ab[k]).0 <= ab[k].1 by {
        if ab[k].0 > ab[k].1 {
            lemma_first_inconsistent_row_exists(ab, k);
        }
    }
    assert forall|k: int| 0 <= k < a.len() implies (#[trigger] a[k]).0 <= a[k].1 by {
        assert(a[k] == ab[k]);
    }
    assert forall|k: int| 0 <= k < b.len() implies (#[trigger] b[k]).0 <= b[k].1 by {
        assert(b[k] == ab[a.len() + k]);
    }
    lemma_totals_bounds(a);
    lemma_totals_bounds(b);
    lemma_totals_add_up(a, b);
    assert(a.len() > 0);
    assert(b.len() > 0);
    assert(!exists|k: int| first_inconsistent_row(a, k));
    assert(!exists|k: int| first_inconsistent_row(b, k));
}

} // verus!
