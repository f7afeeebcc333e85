//! The allocation engine: from a strategy and a snapshot of positions to
//! the target value of every position.

use crate::rational::{
    pair_lt, rat_div_spec, rat_mul_spec, Rational,
};
use crate::types::{
    all_above_zero, frac_sum_prefix, fraction_sum, position_total_spec, rows_wf, valid_allocation,
    PositionInputState, PositionsDataStore, StrategyState, TargetPosition,
};
use vstd::prelude::*;

verus! {

/// The identity mapping: every position keeps its current value.  This is
/// what a set that is not ready for rebalancing gets back.
pub open spec fn mirror_targets(rows: Seq<PositionInputState>) -> Seq<TargetPosition> {
    Seq::new(
        rows.len(),
        |i: int| (TargetPosition { id: rows[i].id, value: rows[i].current_position }),
    )
}

/// The `Rational` whose components hold the pair (meaningful when the pair
/// fits, see `fits_i64`).
pub open spec fn rat_of_pair(p: (int, int)) -> Rational {
    Rational { num: p.0 as i64, den: p.1 as i64 }
}

/// A position's value-to-fraction quotient, `currentValue / targetFraction`
/// (meaningful when the fraction is positive).
pub open spec fn quotient_of(p: PositionInputState) -> (int, int) {
    crate::rational::pair_div(p.current_position@, p.target_allocation@)
}

/// The candidate quotient `q` makes a strictly better anchor than the
/// current best `best`.  A Buy anchor is the position with the largest
/// value-to-fraction ratio (the one furthest below its target), a Sell
/// anchor the one with the smallest; both orders equal the order of the
/// deviation `(allocation - fraction) * polarity / fraction` used to
/// describe the search.
pub open spec fn prefers(strategy: StrategyState, q: Rational, best: Rational) -> bool {
    if strategy == StrategyState::Buy {
        pair_lt(best@, q@)
    } else {
        pair_lt(q@, best@)
    }
}

/// The anchor search over the first `n` rows: the first position (in row
/// order) with a nonzero target fraction whose value-to-fraction quotient
/// is strictly extremal, together with that quotient in lowest terms.
/// `Some(None)` means no candidate was seen; `None` means some candidate's
/// quotient cannot be represented.
pub open spec fn anchor_prefix(
    rows: Seq<PositionInputState>,
    strategy: StrategyState,
    n: int,
) -> Option<Option<(int, Rational)>>
    decreases n,
{
    if n <= 0 {
        Some(None)
    } else {
        match anchor_prefix(rows, strategy, n - 1) {
            None => None,
            Some(acc) => {
                let p = rows[n - 1];
                if p.target_allocation@.0 == 0 {
                    Some(acc)
                } else {
                    match rat_div_spec(p.current_position@, p.target_allocation@) {
                        None => None,
                        Some(qp) => match acc {
                            None => Some(Some((n - 1, rat_of_pair(qp)))),
                            Some(b) => if prefers(strategy, rat_of_pair(qp), b.1) {
                                Some(Some((n - 1, rat_of_pair(qp))))
                            } else {
                                Some(acc)
                            },
                        },
                    }
                }
            },
        }
    }
}

/// The anchor search over the whole set.
pub open spec fn anchor_of(rows: Seq<PositionInputState>, strategy: StrategyState) -> Option<
    Option<(int, Rational)>,
> {
    anchor_prefix(rows, strategy, rows.len() as int)
}

/// Targets for the first `n` rows under a common scale factor: each target
/// is the position's fraction times `factor`, in lowest terms.  `None` as
/// soon as one product cannot be represented.
pub open spec fn scaled_prefix(
    rows: Seq<PositionInputState>,
    factor: Rational,
    n: int,
) -> Option<Seq<TargetPosition>>
    decreases n,
{
    if n <= 0 {
        Some(Seq::empty())
    } else {
        match scaled_prefix(rows, factor, n - 1) {
            None => None,
            Some(s) => match rat_mul_spec(rows[n - 1].target_allocation@, factor@) {
                None => None,
                Some(vp) => Some(
                    s.push(TargetPosition { id: rows[n - 1].id, value: rat_of_pair(vp) }),
                ),
            },
        }
    }
}

/// Targets for the whole set under a common scale factor.
pub open spec fn scaled_targets(rows: Seq<PositionInputState>, factor: Rational) -> Option<
    Seq<TargetPosition>,
> {
    scaled_prefix(rows, factor, rows.len() as int)
}

/// What `get_target_assets` returns.
///
/// A set that fails either validity predicate gets the identity mapping.
/// Otherwise, under BuySell every fraction is scaled by the exact sum of
/// the current values; under Buy or Sell, by the anchor's value divided by
/// its fraction.  `None` exactly when one of the exact intermediate
/// results cannot be represented in 64-bit lowest terms.
pub open spec fn target_positions_spec(
    strategy: StrategyState,
    rows: Seq<PositionInputState>,
) -> Option<Seq<TargetPosition>> {
    if !valid_allocation(rows) || !all_above_zero(rows) {
        Some(mirror_targets(rows))
    } else {
        match position_total_spec(rows) {
            None => None,
            Some(tp) => match strategy {
                StrategyState::BuySell => scaled_targets(rows, rat_of_pair(tp)),
                _ => match anchor_of(rows, strategy) {
                    None => None,
                    Some(None) => None,
                    Some(Some(a)) => scaled_targets(rows, a.1),
                },
            },
        }
    }
}

/// Once the anchor search hits an unrepresentable quotient, it stays
/// failed.
proof fn lemma_anchor_prefix_none(
    rows: Seq<PositionInputState>,
    strategy: StrategyState,
    n: int,
    m: int,
)
    requires
        0 <= n <= m,
        anchor_prefix(rows, strategy, n) is None,
    ensures
        anchor_prefix(rows, strategy, m) is None,
    decreases m,
{
    if n < m {
        lemma_anchor_prefix_none(rows, strategy, n, m - 1);
    }
}

/// Once scaling hits an unrepresentable product, it stays failed.
proof fn lemma_scaled_prefix_none(
    rows: Seq<PositionInputState>,
    factor: Rational,
    n: int,
    m: int,
)
    requires
        0 <= n <= m,
        scaled_prefix(rows, factor, n) is None,
    ensures
        scaled_prefix(rows, factor, m) is None,
    decreases m,
{
    if n < m {
        lemma_scaled_prefix_none(rows, factor, n, m - 1);
    }
}

/// An empty anchor search means every fraction seen so far is zero.
proof fn lemma_anchor_scan_empty(rows: Seq<PositionInputState>, strategy: StrategyState, n: int)
    requires
        anchor_prefix(rows, strategy, n) == Some(None::<(int, Rational)>),
    ensures
        forall|i: int| 0 <= i < n ==> (#[trigger] rows[i]).target_allocation@.0 == 0,
    decreases n,
{
    if n > 0 {
        lemma_anchor_scan_empty(rows, strategy, n - 1);
    }
}

/// When every fraction is zero, the running fraction sum is exactly zero.
proof fn lemma_all_zero_fraction_sum(rows: Seq<PositionInputState>, n: int)
    requires
        rows_wf(rows),
        0 <= n <= rows.len(),
        forall|i: int| 0 <= i < n ==> (#[trigger] rows[i]).target_allocation@.0 == 0,
    ensures
        frac_sum_prefix(rows, n) == Some((0int, 1int)),
    decreases n,
{
    if n > 0 {
        lemma_all_zero_fraction_sum(rows, n - 1);
        crate::rational::lemma_norm_zero(rows[n - 1].target_allocation@.1);
    }
}

/// A valid set always yields an anchor: its fractions sum to one, so they
/// cannot all be zero.  Buy or Sell on a set whose fractions are all zero
/// is the one genuine failure of the engine; the validity gate in front of
/// the search makes it unreachable through `get_target_assets`.
pub proof fn lemma_anchor_exists(rows: Seq<PositionInputState>, strategy: StrategyState)
    requires
        rows_wf(rows),
        valid_allocation(rows),
    ensures
        match anchor_of(rows, strategy) {
            Some(acc) => acc is Some,
            None => true,
        },
{
    if anchor_of(rows, strategy) == Some(None::<(int, Rational)>) {
        lemma_anchor_scan_empty(rows, strategy, rows.len() as int);
        lemma_all_zero_fraction_sum(rows, rows.len() as int);
        assert(fraction_sum(rows) == Some((0int, 1int)));
        assert(false);
    }
}

/// The identity mapping, one target per row, current values kept.
fn mirrored_targets(rows: &Vec<PositionInputState>) -> (out: Vec<TargetPosition>)
    ensures
        out@ == mirror_targets(rows@),
{
    let n = rows.len();
    let mut out: Vec<TargetPosition> = Vec::new();
    let mut i: usize = 0;
    while i < n
        invariant
            i <= n,
            n == rows@.len(),
            out@.len() == i,
            forall|k: int| 0 <= k < i ==> out@[k] == mirror_targets(rows@)[k],
        decreases n - i,
    {
        out.push(TargetPosition { id: rows[i].id, value: rows[i].current_position });
        i = i + 1;
    }
    proof {
        assert(out@ =~= mirror_targets(rows@));
    }
    out
}

/// One target per row: the row's fraction times `factor`, or `None` when
/// a product cannot be represented.
fn scaled(rows: &Vec<PositionInputState>, factor: Rational) -> (r: Option<Vec<TargetPosition>>)
    requires
        rows_wf(rows@),
        factor.wf(),
    ensures
        match r {
            Some(v) => scaled_targets(rows@, factor) == Some(v@),
            None => scaled_targets(rows@, factor) is None,
        },
{
    let n = rows.len();
    let mut out: Vec<TargetPosition> = Vec::new();
    let mut i: usize = 0;
    while i < n
        invariant
            i <= n,
            n == rows@.len(),
            rows_wf(rows@),
            factor.wf(),
            scaled_prefix(rows@, factor, i as int) == Some(out@),
        decreases n - i,
    {
        match rows[i].target_allocation.checked_mul(factor) {
            None => {
                proof {
                    lemma_scaled_prefix_none(rows@, factor, i as int + 1, rows@.len() as int);
                }
                return None;
            },
            Some(v) => {
                out.push(TargetPosition { id: rows[i].id, value: v });
            },
        }
        i = i + 1;
    }
    Some(out)
}

/// Compute the target value of every position under the given strategy.
///
/// A set that fails `is_valid_target_allocation` or
/// `all_positions_above_zero` is not ready for rebalancing and gets the
/// identity mapping back, never an error.  Otherwise the result holds one
/// target per input position, matched by identifier in input order, and is
/// `None` exactly when an exact intermediate value cannot be represented
/// in 64-bit lowest terms.
pub fn get_target_assets(
    strategy: StrategyState,
    positions_store: PositionsDataStore,
) -> (r: Option<Vec<TargetPosition>>)
    requires
        positions_store.wf(),
    ensures
        match r {
            Some(v) => target_positions_spec(strategy, positions_store.rows@) == Some(v@),
            None => target_positions_spec(strategy, positions_store.rows@) is None,
        },
        !(valid_allocation(positions_store.rows@) && all_above_zero(positions_store.rows@)) ==> (r
            is Some && r.unwrap()@ == mirror_targets(positions_store.rows@)),
        r is Some ==> r.unwrap()@.len() == positions_store.rows@.len(),
        r is Some ==> forall|i: int|
            0 <= i < positions_store.rows@.len() ==> r.unwrap()@[i].id == positions_store.rows@[
                i
            ].id,
{
    proof {
        crate::laws::lemma_targets_match_input(strategy, positions_store.rows@);
    }
    let valid = positions_store.is_valid_target_allocation();
    let above = positions_store.all_positions_above_zero();
    if !valid || !above {
        return Some(mirrored_targets(&positions_store.rows));
    }
    let t = match positions_store.total() {
        None => {
            return None;
        },
        Some(t) => t,
    };
    match strategy {
        StrategyState::BuySell => scaled(&positions_store.rows, t),
        _ => {
            let is_buy = strategy == StrategyState::Buy;
            let n = positions_store.rows.len();
            let mut best: Option<(usize, Rational)> = None;
            let mut i: usize = 0;
            while i < n
                invariant
                    i <= n,
                    n == positions_store.rows@.len(),
                    rows_wf(positions_store.rows@),
                    valid_allocation(positions_store.rows@),
                    all_above_zero(positions_store.rows@),
                    position_total_spec(positions_store.rows@) == Some(t@),
                    is_buy == (strategy == StrategyState::Buy),
                    strategy != StrategyState::BuySell,
                    match best {
                        Some(b) => b.1.wf() && anchor_prefix(positions_store.rows@, strategy, i as int)
                            == Some(Some((b.0 as int, b.1))),
                        None => anchor_prefix(positions_store.rows@, strategy, i as int) == Some(
                            None::<(int, Rational)>,
                        ),
                    },
                decreases n - i,
            {
                let frac = positions_store.rows[i].target_allocation;
                if !frac.is_zero() {
                    match positions_store.rows[i].current_position.checked_div(frac) {
                        None => {
                            proof {
                                lemma_anchor_prefix_none(
                                    positions_store.rows@,
                                    strategy,
                                    i as int + 1,
                                    positions_store.rows@.len() as int,
                                );
                            }
                            return None;
                        },
                        Some(q) => {
                            let better = match &best {
                                None => true,
                                Some(b) => if is_buy {
                                    b.1.lt(q)
                                } else {
                                    q.lt(b.1)
                                },
                            };
                            if better {
                                best = Some((i, q));
                            }
                        },
                    }
                }
                i = i + 1;
            }
            match best {
                None => {
                    proof {
                        lemma_anchor_exists(positions_store.rows@, strategy);
                        assert(false);
                    }
                    None
                },
                Some(b) => scaled(&positions_store.rows, b.1),
            }
        },
    }
}

} // verus!
