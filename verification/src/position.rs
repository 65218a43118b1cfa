use vstd::prelude::*;
use vstd::arithmetic::div_mod::{lemma_fundamental_div_mod, lemma_mod_pos_bound};

use crate::error::SerpError;
use crate::rate::saturated;
use crate::sums::sum_of;

verus! {

// A SERP position enters the library as `Option<u64>`: `Some(w)` holds the
// whole part `w` of a finite, non-negative position (`3.4` is `Some(3)`), and
// `None` stands for a value that has none (NaN, an infinity, a negative
// number). Search Console reports `1.0` as the top result, so a position is
// valid exactly when its whole part is at least 1.

/// A position that the arithmetic accepts: a finite number `>= 1.0`.
pub open spec fn valid_position(position: Option<u64>) -> bool {
    position matches Some(w) && w >= 1
}

/// The whole-number bucket of a position's whole part, saturated at `u32::MAX`.
pub open spec fn bucket_of(w: u64) -> u32 {
    if w > u32::MAX {
        u32::MAX
    } else {
        w as u32
    }
}

/// The bucket that an observation at `position` falls in (0 for an invalid one).
pub open spec fn position_bucket(position: Option<u64>) -> u32 {
    match position {
        Some(w) => bucket_of(w),
        None => 0,
    }
}

/// The error, if any, that an observation `(position, clicks, impressions)` is refused with.
pub open spec fn observation_error(position: Option<u64>, clicks: u64, impressions: u64) -> Option<
    SerpError,
> {
    if !valid_position(position) {
        Some(SerpError::InvalidPosition)
    } else if clicks > impressions {
        Some(SerpError::ClicksExceedImpressions { clicks, impressions })
    } else {
        None
    }
}

/// Results per page, where 0 counts as 1.
pub open spec fn effective_per_page(per_page: u32) -> int {
    if per_page == 0 {
        1
    } else {
        per_page as int
    }
}

/// The 1-based SERP page of a position (page 1 for an invalid position).
pub open spec fn spec_page_of_position(position: Option<u64>, per_page: u32) -> int {
    match position {
        Some(w) if w >= 1 => (w - 1) / effective_per_page(per_page) + 1,
        _ => 1,
    }
}

/// The page number of a valid position fits in a `u32`.
pub open spec fn page_fits(position: Option<u64>, per_page: u32) -> bool {
    valid_position(position) ==> spec_page_of_position(position, per_page) <= u32::MAX
}

/// The SERP page a position falls on, given `per_page` results per page.
///
/// Page numbering starts at 1. A `per_page` of 0 is treated as 1, and a
/// position that is not a finite number `>= 1.0` is on page 1.
pub fn page_of_position(position: Option<u64>, per_page: u32) -> (page: u32)
    requires
        page_fits(position, per_page),
    ensures
        page == spec_page_of_position(position, per_page),
        page >= 1,
        valid_position(position) && per_page >= 1 ==> (page - 1) * per_page < position->0 <= page
            * per_page,
        valid_position(position) && per_page == 0 ==> page == position->0,
        !valid_position(position) ==> page == 1,
{
    proof {
        if let Some(w) = position {
            if w >= 1 {
                lemma_page_holds_position(w, per_page);
            }
        }
    }
    let per_page: u64 = if per_page == 0 {
        1
    } else {
        per_page as u64
    };
    match position {
        Some(w) if w >= 1 => ((w - 1) / per_page + 1) as u32,
        _ => 1,
    }
}

/// Law: with `per_page >= 1` results per page, a valid position `w` lies on
/// page `k` exactly when `(k - 1) * per_page < w <= k * per_page`, so page 1
/// holds positions `1..=per_page`, page 2 the next `per_page`, and so on; with
/// `per_page == 0` every position is its own page.
pub proof fn lemma_page_holds_position(w: u64, per_page: u32)
    requires
        w >= 1,
    ensures
        spec_page_of_position(Some(w), per_page) >= 1,
        per_page >= 1 ==> (spec_page_of_position(Some(w), per_page) - 1) * per_page < w
            <= spec_page_of_position(Some(w), per_page) * per_page,
        per_page == 0 ==> spec_page_of_position(Some(w), per_page) == w,
{
    let n = effective_per_page(per_page);
    let x = w - 1;
    lemma_fundamental_div_mod(x, n);
    lemma_mod_pos_bound(x, n);
    let q = x / n;
    let r = x % n;
    assert(q * n < w <= (q + 1) * n && q >= 0) by (nonlinear_arith)
        requires
            x == n * q + r,
            0 <= r < n,
            x >= 0,
            w == x + 1,
            n >= 1,
    ;
    if per_page == 0 {
        assert(n == 1);
        assert(q == x);
    }
}

/// Law: a later position is never on an earlier page.
pub proof fn lemma_page_monotone(v: u64, w: u64, per_page: u32)
    requires
        1 <= v <= w,
    ensures
        spec_page_of_position(Some(v), per_page) <= spec_page_of_position(Some(w), per_page),
{
    let n = effective_per_page(per_page);
    vstd::arithmetic::div_mod::lemma_div_is_ordered(v - 1, w - 1, n);
}

/// Sum of the impressions column.
pub open spec fn row_impressions(rows: Seq<(Option<u64>, u64)>) -> int {
    sum_of(rows, |row: (Option<u64>, u64)| row.1 as int)
}

/// What [`weighted_position_total`] returns for these rows.
pub open spec fn spec_weighted_position_total(rows: Seq<(Option<u64>, u64)>) -> Result<
    u64,
    SerpError,
> {
    if rows.len() == 0 {
        Err(SerpError::EmptyInput)
    } else if exists|k: int| 0 <= k < rows.len() && !valid_position(#[trigger] rows[k].0) {
        Err(SerpError::InvalidPosition)
    } else if row_impressions(rows) == 0 {
        Err(SerpError::NoImpressions)
    } else {
        Ok(saturated(row_impressions(rows)))
    }
}

/// Law: for a non-empty list of valid rows, the weighting total counts the
/// impressions of every row: it is their sum (saturated at `u64::MAX`), and
/// zero impressions in all is the only refusal.
pub proof fn lemma_weighted_total_sums_every_row(rows: Seq<(Option<u64>, u64)>)
    requires
        rows.len() > 0,
        forall|k: int| 0 <= k < rows.len() ==> valid_position(#[trigger] rows[k].0),
    ensures
        spec_weighted_position_total(rows) == ({
            let sum = sum_of(rows, |row: (Option<u64>, u64)| row.1 as int);
            if sum == 0 {
                Err(SerpError::NoImpressions)
            } else if sum > u64::MAX {
                Ok(u64::MAX)
            } else {
                Ok(sum as u64)
            }
        }),
{
    crate::sums::lemma_sum_of_nonneg_u64_column(rows);
}

/// Law: appending a valid row with `k` impressions to valid rows adds exactly
/// `k` to the weighting total, as long as nothing saturates.
pub proof fn lemma_weighted_total_adds_a_row(rows: Seq<(Option<u64>, u64)>, w: u64, k: u64)
    requires
        forall|j: int| 0 <= j < rows.len() ==> valid_position(#[trigger] rows[j].0),
        w >= 1,
        rows.len() > 0,
        spec_weighted_position_total(rows) matches Ok(t) && t + k <= u64::MAX,
    ensures
        spec_weighted_position_total(rows.push((Some(w), k))) == Ok::<u64, SerpError>(
            (spec_weighted_position_total(rows)->Ok_0 + k) as u64,
        ),
{
    let longer = rows.push((Some(w), k));
    assert forall|j: int| 0 <= j < longer.len() implies valid_position(#[trigger] longer[j].0) by {
        if j < rows.len() {
            assert(longer[j] == rows[j]);
        }
    }
    lemma_weighted_total_sums_every_row(rows);
    lemma_weighted_total_sums_every_row(longer);
    assert(longer.drop_last() =~= rows);
    crate::sums::lemma_sum_of_nonneg_u64_column(rows);
}

/// The impressions that weight an impression-weighted average position, with
/// its checks.
///
/// An impression-weighted average position is `sum(position * impressions) /
/// total`; this returns `total` (summed with saturation at `u64::MAX`) or the
/// error that the average is refused with: [`SerpError::EmptyInput`] for no
/// rows, [`SerpError::InvalidPosition`] when a position is not a finite number
/// `>= 1.0`, and [`SerpError::NoImpressions`] when every row has zero impressions.
pub fn weighted_position_total(rows: &[(Option<u64>, u64)]) -> (r: Result<u64, SerpError>)
    ensures
        r == spec_weighted_position_total(rows@),
        r matches Ok(total) ==> total > 0,
        rows@.len() > 0 && (forall|k: int| 0 <= k < rows@.len() ==> valid_position(#[trigger] rows@[k].0))
            ==> r == ({
            let sum = sum_of(rows@, |row: (Option<u64>, u64)| row.1 as int);
            if sum == 0 {
                Err(SerpError::NoImpressions)
            } else if sum > u64::MAX {
                Ok(u64::MAX)
            } else {
                Ok(sum as u64)
            }
        }),
{
    proof {
        if rows@.len() > 0 && (forall|k: int|
            0 <= k < rows@.len() ==> valid_position(#[trigger] rows@[k].0)) {
            lemma_weighted_total_sums_every_row(rows@);
        }
    }
    if rows.len() == 0 {
        return Err(SerpError::EmptyInput);
    }
    let mut total: u64 = 0;
    let mut i: usize = 0;
    while i < rows.len()
        invariant
            0 <= i <= rows@.len(),
            total == saturated(row_impressions(rows@.take(i as int))),
            row_impressions(rows@.take(i as int)) >= 0,
            forall|k: int| 0 <= k < i ==> valid_position(#[trigger] rows@[k].0),
        decreases rows@.len() - i,
    {
        let (position, impressions) = rows[i];
        let valid = match position {
            Some(w) => w >= 1,
            None => false,
        };
        if !valid {
            return Err(SerpError::InvalidPosition);
        }
        assert(rows@.take(i + 1).drop_last() =~= rows@.take(i as int));
        assert(row_impressions(rows@.take(i + 1)) == row_impressions(rows@.take(i as int))
            + impressions);
        total = total.saturating_add(impressions);
        i = i + 1;
    }
    assert(rows@.take(rows@.len() as int) =~= rows@);
    if total == 0 {
        return Err(SerpError::NoImpressions);
    }
    Ok(total)
}

} // verus!
