//! Laws of the allocation engine, stated and proved over its
//! specification.

use crate::functions::{
    anchor_of, anchor_prefix, prefers, quotient_of, rat_of_pair, scaled_prefix, scaled_targets,
    target_positions_spec,
};
use crate::rational::{
    fits_i64, lemma_norm_opt_value, lemma_pair_add_cong, lemma_pair_div_mul_cancel,
    lemma_pair_eq_trans, lemma_pair_le_mul_left, lemma_pair_lt_cong, lemma_pair_mul_cong, lemma_pair_mul_distributes,
    lemma_pair_lt_div_pos, lemma_pair_lt_sub_one, lemma_pair_ops_wf, lemma_pair_order_trans,
    pair_add, pair_div, pair_eq, pair_le, pair_lt, pair_mul, pair_sub, Rational,
};
use crate::types::{
    all_above_zero, frac_sum_prefix, fraction_sum, no_negative_fraction, position_total_spec,
    rows_wf, total_prefix, valid_allocation, PositionInputState, StrategyState, TargetPosition,
};
use vstd::prelude::*;

verus! {

/// The computation is a pure function of the snapshot: two results
/// obtained from an identical strategy and an identical snapshot are
/// identical.
pub proof fn lemma_compute_deterministic(
    strategy: StrategyState,
    rows: Seq<PositionInputState>,
    r1: Option<Seq<TargetPosition>>,
    r2: Option<Seq<TargetPosition>>,
)
    requires
        r1 == target_positions_spec(strategy, rows),
        r2 == target_positions_spec(strategy, rows),
    ensures
        r1 == r2,
{
}

/// Scaled targets keep the shape of the input: one per row, matched by
/// identifier, in row order.
proof fn lemma_scaled_prefix_shape(rows: Seq<PositionInputState>, factor: Rational, n: int)
    requires
        0 <= n <= rows.len(),
        scaled_prefix(rows, factor, n) is Some,
    ensures
        scaled_prefix(rows, factor, n).unwrap().len() == n,
        forall|i: int|
            0 <= i < n ==> (#[trigger] scaled_prefix(rows, factor, n).unwrap()[i]).id == rows[
                i
            ].id,
    decreases n,
{
    if n > 0 {
        lemma_scaled_prefix_shape(rows, factor, n - 1);
    }
}

/// Whenever the computation succeeds, the output holds exactly one target
/// per input position, with the same identifier, in the same order.
pub proof fn lemma_targets_match_input(strategy: StrategyState, rows: Seq<PositionInputState>)
    ensures
        match target_positions_spec(strategy, rows) {
            Some(out) => out.len() == rows.len() && forall|i: int|
                0 <= i < rows.len() ==> (#[trigger] out[i]).id == rows[i].id,
            None => true,
        },
{
    if valid_allocation(rows) && all_above_zero(rows) {
        match position_total_spec(rows) {
            None => {},
            Some(tp) => match strategy {
                StrategyState::BuySell => {
                    if scaled_targets(rows, rat_of_pair(tp)) is Some {
                        lemma_scaled_prefix_shape(rows, rat_of_pair(tp), rows.len() as int);
                    }
                },
                _ => {
                    match anchor_of(rows, strategy) {
                        Some(acc) => match acc {
                            Some(a) => {
                                if scaled_targets(rows, a.1) is Some {
                                    lemma_scaled_prefix_shape(rows, a.1, rows.len() as int);
                                }
                            },
                            None => {},
                        },
                        None => {},
                    }
                },
            },
        }
    }
}

/// Exact sum of the values of the first `n` targets, with no reduction:
/// the mathematical sum of the output values.
pub open spec fn value_sum_prefix(out: Seq<TargetPosition>, n: int) -> (int, int)
    decreases n,
{
    if n <= 0 {
        (0int, 1int)
    } else {
        pair_add(value_sum_prefix(out, n - 1), out[n - 1].value@)
    }
}

/// Exact sum of all the output values.
pub open spec fn value_sum(out: Seq<TargetPosition>) -> (int, int) {
    value_sum_prefix(out, out.len() as int)
}

/// Exact sum of the first `n` target fractions, with no reduction.
spec fn frac_raw_prefix(rows: Seq<PositionInputState>, n: int) -> (int, int)
    decreases n,
{
    if n <= 0 {
        (0int, 1int)
    } else {
        pair_add(frac_raw_prefix(rows, n - 1), rows[n - 1].target_allocation@)
    }
}

/// A represented running fraction sum fits the 64-bit components.
proof fn lemma_frac_prefix_fits(rows: Seq<PositionInputState>, n: int)
    requires
        frac_sum_prefix(rows, n) is Some,
    ensures
        fits_i64(frac_sum_prefix(rows, n).unwrap()),
{
}

/// A represented running value sum fits the 64-bit components.
proof fn lemma_total_prefix_fits(rows: Seq<PositionInputState>, n: int)
    requires
        total_prefix(rows, n) is Some,
    ensures
        fits_i64(total_prefix(rows, n).unwrap()),
{
}

/// The unreduced fraction sum keeps a positive denominator.
proof fn lemma_frac_raw_wf(rows: Seq<PositionInputState>, n: int)
    requires
        rows_wf(rows),
        0 <= n <= rows.len(),
    ensures
        frac_raw_prefix(rows, n).1 >= 1,
    decreases n,
{
    if n > 0 {
        lemma_frac_raw_wf(rows, n - 1);
        lemma_pair_ops_wf(frac_raw_prefix(rows, n - 1), rows[n - 1].target_allocation@);
    }
}

/// The reduced running fraction sum denotes the same value as the
/// unreduced one.
proof fn lemma_frac_chain_value(rows: Seq<PositionInputState>, n: int)
    requires
        rows_wf(rows),
        0 <= n <= rows.len(),
        frac_sum_prefix(rows, n) is Some,
    ensures
        pair_eq(frac_sum_prefix(rows, n).unwrap(), frac_raw_prefix(rows, n)),
    decreases n,
{
    if n > 0 {
        lemma_frac_chain_value(rows, n - 1);
        let s_prev = frac_sum_prefix(rows, n - 1).unwrap();
        let raw_prev = frac_raw_prefix(rows, n - 1);
        let f = rows[n - 1].target_allocation@;
        let s = frac_sum_prefix(rows, n).unwrap();
        lemma_frac_prefix_fits(rows, n - 1);
        lemma_frac_prefix_fits(rows, n);
        lemma_frac_raw_wf(rows, n - 1);
        lemma_pair_ops_wf(s_prev, f);
        lemma_pair_ops_wf(raw_prev, f);
        lemma_norm_opt_value(pair_add(s_prev, f).0, pair_add(s_prev, f).1);
        lemma_pair_add_cong(s_prev, raw_prev, f, f);
        lemma_pair_eq_trans(s, pair_add(s_prev, f), pair_add(raw_prev, f));
    }
}

/// Appending a target does not change the sum over the first `k` targets.
proof fn lemma_value_sum_push(s: Seq<TargetPosition>, el: TargetPosition, k: int)
    requires
        0 <= k <= s.len(),
    ensures
        value_sum_prefix(s.push(el), k) == value_sum_prefix(s, k),
    decreases k,
{
    if k > 0 {
        lemma_value_sum_push(s, el, k - 1);
        assert(s.push(el)[k - 1] == s[k - 1]);
    }
}

/// The exact sum of the scaled targets of the first `n` rows denotes the
/// fraction sum of those rows times the scale factor.
proof fn lemma_scaled_value_sum(rows: Seq<PositionInputState>, factor: Rational, n: int)
    requires
        rows_wf(rows),
        factor.wf(),
        0 <= n <= rows.len(),
        scaled_prefix(rows, factor, n) is Some,
    ensures
        value_sum_prefix(scaled_prefix(rows, factor, n).unwrap(), n).1 >= 1,
        pair_eq(
            value_sum_prefix(scaled_prefix(rows, factor, n).unwrap(), n),
            pair_mul(frac_raw_prefix(rows, n), factor@),
        ),
    decreases n,
{
    if n <= 0 {
        assert(value_sum_prefix(scaled_prefix(rows, factor, n).unwrap(), n) == (0int, 1int));
        assert(pair_eq((0int, 1int), pair_mul(frac_raw_prefix(rows, n), factor@)));
    } else {
        lemma_scaled_value_sum(rows, factor, n - 1);
        let prev = scaled_prefix(rows, factor, n - 1).unwrap();
        let out = scaled_prefix(rows, factor, n).unwrap();
        let f = rows[n - 1].target_allocation@;
        let raw_prev = frac_raw_prefix(rows, n - 1);
        let vp = crate::rational::rat_mul_spec(f, factor@).unwrap();
        lemma_frac_raw_wf(rows, n - 1);
        lemma_pair_ops_wf(f, factor@);
        lemma_pair_ops_wf(raw_prev, factor@);
        lemma_norm_opt_value(pair_mul(f, factor@).0, pair_mul(f, factor@).1);
        assert(out == prev.push(TargetPosition { id: rows[n - 1].id, value: rat_of_pair(vp) }));
        lemma_scaled_prefix_shape(rows, factor, n - 1);
        lemma_value_sum_push(
            prev,
            TargetPosition { id: rows[n - 1].id, value: rat_of_pair(vp) },
            n - 1,
        );
        assert(out[n - 1].value@ == vp);
        let vs_prev = value_sum_prefix(out, n - 1);
        assert(vs_prev == value_sum_prefix(prev, n - 1));
        assert(value_sum_prefix(out, n) == pair_add(vs_prev, vp));
        assert(frac_raw_prefix(rows, n) == pair_add(raw_prev, f));
        // vp denotes f * factor; the running sum denotes raw_prev * factor.
        lemma_pair_add_cong(vs_prev, pair_mul(raw_prev, factor@), vp, pair_mul(f, factor@));
        lemma_pair_mul_distributes(raw_prev, f, factor@);
        lemma_pair_ops_wf(raw_prev, f);
        lemma_pair_ops_wf(pair_add(raw_prev, f), factor@);
        lemma_pair_ops_wf(vs_prev, vp);
        lemma_pair_ops_wf(pair_mul(raw_prev, factor@), pair_mul(f, factor@));
        lemma_pair_eq_trans(
            value_sum_prefix(out, n),
            pair_add(pair_mul(raw_prev, factor@), pair_mul(f, factor@)),
            pair_mul(frac_raw_prefix(rows, n), factor@),
        );
    }
}

/// The values of scaled targets: each is the row's fraction times the
/// factor, and each has a positive denominator.
proof fn lemma_scaled_prefix_values(rows: Seq<PositionInputState>, factor: Rational, n: int)
    requires
        rows_wf(rows),
        factor.wf(),
        0 <= n <= rows.len(),
        scaled_prefix(rows, factor, n) is Some,
    ensures
        forall|j: int|
            0 <= j < n ==> pair_eq(
                (#[trigger] scaled_prefix(rows, factor, n).unwrap()[j]).value@,
                pair_mul(rows[j].target_allocation@, factor@),
            ) && scaled_prefix(rows, factor, n).unwrap()[j].value@.1 >= 1,
    decreases n,
{
    if n > 0 {
        lemma_scaled_prefix_values(rows, factor, n - 1);
        lemma_scaled_prefix_shape(rows, factor, n - 1);
        let f = rows[n - 1].target_allocation@;
        lemma_pair_ops_wf(f, factor@);
        lemma_norm_opt_value(pair_mul(f, factor@).0, pair_mul(f, factor@).1);
        let prev = scaled_prefix(rows, factor, n - 1).unwrap();
        let out = scaled_prefix(rows, factor, n).unwrap();
        assert(forall|j: int| 0 <= j < n - 1 ==> #[trigger] out[j] == prev[j]);
    }
}

/// The anchor search selects, among the positions with a nonzero target
/// fraction, the first one whose value-to-fraction quotient is extremal:
/// the largest under Buy, the smallest under Sell.  This is the order of
/// the deviation `(allocation - fraction) * polarity / fraction`, so the
/// anchor is the position of minimum deviation, the first such in row
/// order.
proof fn lemma_anchor_prefix_extremal(
    rows: Seq<PositionInputState>,
    strategy: StrategyState,
    n: int,
)
    requires
        rows_wf(rows),
        no_negative_fraction(rows),
        strategy != StrategyState::BuySell,
        0 <= n <= rows.len(),
        anchor_prefix(rows, strategy, n) is Some,
    ensures
        match anchor_prefix(rows, strategy, n).unwrap() {
            None => forall|j: int|
                0 <= j < n ==> (#[trigger] rows[j]).target_allocation@.0 == 0,
            Some(b) => {
                &&& 0 <= b.0 < n
                &&& rows[b.0].target_allocation@.0 > 0
                &&& b.1.wf()
                &&& pair_eq(b.1@, quotient_of(rows[b.0]))
                &&& forall|j: int|
                    0 <= j < n && (#[trigger] rows[j]).target_allocation@.0 != 0 ==> (if strategy
                        == StrategyState::Buy {
                        pair_le(quotient_of(rows[j]), b.1@)
                    } else {
                        pair_le(b.1@, quotient_of(rows[j]))
                    })
                &&& forall|j: int|
                    0 <= j < b.0 && (#[trigger] rows[j]).target_allocation@.0 != 0 ==> (if strategy
                        == StrategyState::Buy {
                        pair_lt(quotient_of(rows[j]), b.1@)
                    } else {
                        pair_lt(b.1@, quotient_of(rows[j]))
                    })
            },
        },
    decreases n,
{
    if n > 0 {
        lemma_anchor_prefix_extremal(rows, strategy, n - 1);
        let p = rows[n - 1];
        let f = p.target_allocation@;
        if f.0 != 0 {
            assert(f.0 > 0);
            lemma_pair_div_mul_cancel(p.current_position@, f);
            let qd = quotient_of(p);
            lemma_norm_opt_value(qd.0, qd.1);
            let qp = crate::rational::rat_div_spec(p.current_position@, f).unwrap();
            let q = rat_of_pair(qp);
            assert(q@ == qp);
            match anchor_prefix(rows, strategy, n - 1).unwrap() {
                None => {
                },
                Some(b) => {
                    let qb = b.1;
                    if prefers(strategy, q, qb) {
                        // The new candidate strictly beats the old best,
                        // which already bounds everything before it.
                        assert forall|j: int|
                            0 <= j < n - 1 && (#[trigger] rows[j]).target_allocation@.0
                                != 0 implies (if strategy == StrategyState::Buy {
                            pair_lt(quotient_of(rows[j]), q@)
                        } else {
                            pair_lt(q@, quotient_of(rows[j]))
                        }) by {
                            lemma_pair_div_mul_cancel(
                                rows[j].current_position@,
                                rows[j].target_allocation@,
                            );
                            if strategy == StrategyState::Buy {
                                lemma_pair_order_trans(quotient_of(rows[j]), qb@, q@);
                            } else {
                                lemma_pair_order_trans(q@, qb@, quotient_of(rows[j]));
                            }
                        }
                    } else {
                        // The old best stays; the new candidate is bounded
                        // by it because the comparison said so.
                        lemma_pair_lt_cong(qb@, qb@, qd, q@);
                        lemma_pair_lt_cong(qd, q@, qb@, qb@);
                    }
                },
            }
        }
    }
}

/// A position's deviation from its target: `(allocation - fraction) *
/// polarity / fraction`, where the allocation is the position's share of
/// the total and the polarity is minus one under Buy and plus one under
/// Sell (meaningful when the fraction and the total are positive).
pub open spec fn deviation_of(
    p: PositionInputState,
    total: (int, int),
    strategy: StrategyState,
) -> (int, int) {
    let alloc = pair_div(p.current_position@, total);
    let diff = pair_sub(alloc, p.target_allocation@);
    let signed = if strategy == StrategyState::Buy {
        (-diff.0, diff.1)
    } else {
        diff
    };
    pair_div(signed, p.target_allocation@)
}

/// A deviation denotes the position's value-to-fraction quotient, divided
/// by the total, taken away from one (Buy) or less one (Sell).
proof fn lemma_deviation_shape(p: PositionInputState, total: (int, int), strategy: StrategyState)
    requires
        p.wf(),
        p.target_allocation@.0 > 0,
        total.0 >= 1,
        total.1 >= 1,
        strategy != StrategyState::BuySell,
    ensures
        deviation_of(p, total, strategy).1 >= 1,
        pair_div(quotient_of(p), total).1 >= 1,
        pair_eq(
            deviation_of(p, total, strategy),
            if strategy == StrategyState::Buy {
                pair_sub((1int, 1int), pair_div(quotient_of(p), total))
            } else {
                pair_sub(pair_div(quotient_of(p), total), (1int, 1int))
            },
        ),
{
    let vn = p.current_position@.0;
    let vd = p.current_position@.1;
    let f0 = p.target_allocation@.0;
    let f1 = p.target_allocation@.1;
    let t0 = total.0;
    let t1 = total.1;
    assert((vn * t1) * f1 == (vn * f1) * t1) by (nonlinear_arith);
    assert(f0 * (vd * t0) == (vd * f0) * t0) by (nonlinear_arith);
    assert(((vd * t0) * f1) * f0 >= 1 && (vd * f0) * t0 >= 1) by (nonlinear_arith)
        requires
            vd >= 1,
            t0 >= 1,
            f1 >= 1,
            f0 >= 1,
    ;
    let c = (vn * f1) * t1 - (vd * f0) * t0;
    let cb = (vd * f0) * t0 - (vn * f1) * t1;
    assert((c * f1) * ((vd * f0) * t0) == c * (((vd * t0) * f1) * f0)) by (nonlinear_arith);
    assert((cb * f1) * ((vd * f0) * t0) == cb * (((vd * t0) * f1) * f0)) by (nonlinear_arith);
}

/// The deviation order is the value-to-fraction quotient order, reversed
/// under Buy and kept under Sell.
proof fn lemma_deviation_order(
    pi: PositionInputState,
    pj: PositionInputState,
    total: (int, int),
    strategy: StrategyState,
)
    requires
        pi.wf(),
        pj.wf(),
        pi.target_allocation@.0 > 0,
        pj.target_allocation@.0 > 0,
        total.0 >= 1,
        total.1 >= 1,
        strategy != StrategyState::BuySell,
    ensures
        pair_lt(deviation_of(pi, total, strategy), deviation_of(pj, total, strategy)) == (
        if strategy == StrategyState::Buy {
            pair_lt(quotient_of(pj), quotient_of(pi))
        } else {
            pair_lt(quotient_of(pi), quotient_of(pj))
        }),
{
    lemma_deviation_shape(pi, total, strategy);
    lemma_deviation_shape(pj, total, strategy);
    lemma_pair_div_mul_cancel(pi.current_position@, pi.target_allocation@);
    lemma_pair_div_mul_cancel(pj.current_position@, pj.target_allocation@);
    let one = (1int, 1int);
    let qi = pair_div(quotient_of(pi), total);
    let qj = pair_div(quotient_of(pj), total);
    lemma_pair_lt_sub_one(qi, qj);
    if strategy == StrategyState::Buy {
        lemma_pair_lt_cong(
            deviation_of(pi, total, strategy),
            pair_sub(one, qi),
            deviation_of(pj, total, strategy),
            pair_sub(one, qj),
        );
        lemma_pair_lt_div_pos(quotient_of(pj), quotient_of(pi), total);
    } else {
        lemma_pair_lt_cong(
            deviation_of(pi, total, strategy),
            pair_sub(qi, one),
            deviation_of(pj, total, strategy),
            pair_sub(qj, one),
        );
        lemma_pair_lt_div_pos(quotient_of(pi), quotient_of(pj), total);
    }
}

/// Running sums of positive values stay positive: once a set passes
/// `all_positions_above_zero`, its represented total is nonnegative, and
/// strictly positive as soon as the set is nonempty.  The validity gate
/// therefore guarantees a positive total wherever a strategy divides by
/// it.
pub proof fn lemma_total_positive(rows: Seq<PositionInputState>, n: int)
    requires
        rows_wf(rows),
        all_above_zero(rows),
        0 <= n <= rows.len(),
        total_prefix(rows, n) is Some,
    ensures
        total_prefix(rows, n).unwrap().0 >= 0,
        n >= 1 ==> total_prefix(rows, n).unwrap().0 > 0,
    decreases n,
{
    if n > 0 {
        lemma_total_positive(rows, n - 1);
        let s = total_prefix(rows, n - 1).unwrap();
        let v = rows[n - 1].current_position@;
        lemma_total_prefix_fits(rows, n - 1);
        let raw = pair_add(s, v);
        assert(raw.0 > 0 && raw.1 >= 1) by (nonlinear_arith)
            requires
                raw == (s.0 * v.1 + v.0 * s.1, s.1 * v.1),
                s.0 >= 0,
                s.1 >= 1,
                v.0 > 0,
                v.1 >= 1,
        ;
        crate::rational::lemma_norm(raw.0, raw.1);
    }
}

/// The anchor law: for a valid set, Buy and Sell anchor on the position
/// whose value-to-fraction quotient is extremal — the largest under Buy,
/// the smallest under Sell, the first such in row order on a tie.  Over
/// positive fractions and a positive total this order is exactly the
/// order of the deviation `(allocation - fraction) * polarity / fraction`,
/// so the anchor is the position of minimum deviation.
pub proof fn lemma_anchor_extremal(rows: Seq<PositionInputState>, strategy: StrategyState)
    requires
        rows_wf(rows),
        valid_allocation(rows),
        strategy != StrategyState::BuySell,
        anchor_of(rows, strategy) is Some,
    ensures
        anchor_of(rows, strategy).unwrap() is Some,
        ({
            let b = anchor_of(rows, strategy).unwrap().unwrap();
            &&& 0 <= b.0 < rows.len()
            &&& rows[b.0].target_allocation@.0 > 0
            &&& b.1.wf()
            &&& pair_eq(b.1@, quotient_of(rows[b.0]))
            &&& forall|j: int|
                0 <= j < rows.len() && (#[trigger] rows[j]).target_allocation@.0 != 0 ==> (
                if strategy == StrategyState::Buy {
                    pair_le(quotient_of(rows[j]), b.1@)
                } else {
                    pair_le(b.1@, quotient_of(rows[j]))
                })
            &&& forall|j: int|
                0 <= j < b.0 && (#[trigger] rows[j]).target_allocation@.0 != 0 ==> (if strategy
                    == StrategyState::Buy {
                    pair_lt(quotient_of(rows[j]), b.1@)
                } else {
                    pair_lt(b.1@, quotient_of(rows[j]))
                })
        }),
{
    crate::functions::lemma_anchor_exists(rows, strategy);
    lemma_anchor_prefix_extremal(rows, strategy, rows.len() as int);
}

/// The anchor is the position with the smallest deviation
/// `(allocation - fraction) * polarity / fraction` among those with a
/// nonzero target fraction, and on a tie the first such position in row
/// order: no candidate deviates less, and every earlier candidate deviates
/// strictly more.
pub proof fn lemma_anchor_minimizes_deviation(rows: Seq<PositionInputState>, strategy: StrategyState)
    requires
        rows_wf(rows),
        valid_allocation(rows),
        all_above_zero(rows),
        strategy != StrategyState::BuySell,
        position_total_spec(rows) is Some,
        anchor_of(rows, strategy) is Some,
    ensures
        anchor_of(rows, strategy).unwrap() is Some,
        ({
            let t = position_total_spec(rows).unwrap();
            let b = anchor_of(rows, strategy).unwrap().unwrap();
            &&& forall|j: int|
                0 <= j < rows.len() && (#[trigger] rows[j]).target_allocation@.0 != 0
                    ==> pair_le(
                    deviation_of(rows[b.0], t, strategy),
                    deviation_of(rows[j], t, strategy),
                )
            &&& forall|j: int|
                0 <= j < b.0 && (#[trigger] rows[j]).target_allocation@.0 != 0 ==> pair_lt(
                    deviation_of(rows[b.0], t, strategy),
                    deviation_of(rows[j], t, strategy),
                )
        }),
{
    lemma_anchor_extremal(rows, strategy);
    let t = position_total_spec(rows).unwrap();
    let b = anchor_of(rows, strategy).unwrap().unwrap();
    let pa = rows[b.0];
    if rows.len() == 0 {
        assert(fraction_sum(rows) == Some((0int, 1int)));
        assert(false);
    }
    lemma_total_positive(rows, rows.len() as int);
    lemma_total_prefix_fits(rows, rows.len() as int);
    lemma_pair_div_mul_cancel(pa.current_position@, pa.target_allocation@);
    assert forall|j: int|
        0 <= j < rows.len() && (#[trigger] rows[j]).target_allocation@.0 != 0 implies pair_le(
        deviation_of(rows[b.0], t, strategy),
        deviation_of(rows[j], t, strategy),
    ) && (j < b.0 ==> pair_lt(
        deviation_of(rows[b.0], t, strategy),
        deviation_of(rows[j], t, strategy),
    )) by {
        let pj = rows[j];
        lemma_pair_div_mul_cancel(pj.current_position@, pj.target_allocation@);
        lemma_deviation_order(pj, pa, t, strategy);
        lemma_deviation_order(pa, pj, t, strategy);
        // The extremal bounds hold of the anchor's reduced quotient; carry
        // them over to the raw quotients the deviations are built from.
        if strategy == StrategyState::Buy {
            lemma_pair_lt_cong(quotient_of(pa), b.1@, quotient_of(pj), quotient_of(pj));
            lemma_pair_lt_cong(quotient_of(pj), quotient_of(pj), quotient_of(pa), b.1@);
        } else {
            lemma_pair_lt_cong(quotient_of(pj), quotient_of(pj), quotient_of(pa), b.1@);
            lemma_pair_lt_cong(quotient_of(pa), b.1@, quotient_of(pj), quotient_of(pj));
        }
    }
}

/// Buy never shrinks a position, Sell never grows one: whenever Buy
/// succeeds on a valid set, every position with a nonzero target fraction
/// gets a target at least its current value; under Sell, at most its
/// current value.  A position with a zero fraction is fully divested, and
/// the anchor's target is exactly its current value.
pub proof fn lemma_one_sided_targets(rows: Seq<PositionInputState>, strategy: StrategyState)
    requires
        rows_wf(rows),
        valid_allocation(rows),
        all_above_zero(rows),
        strategy != StrategyState::BuySell,
        target_positions_spec(strategy, rows) is Some,
    ensures
        ({
            let out = target_positions_spec(strategy, rows).unwrap();
            forall|j: int|
                0 <= j < rows.len() ==> (if (#[trigger] rows[j]).target_allocation@.0 == 0 {
                    out[j].value@.0 == 0
                } else if strategy == StrategyState::Buy {
                    pair_le(rows[j].current_position@, out[j].value@)
                } else {
                    pair_le(out[j].value@, rows[j].current_position@)
                })
        }),
        ({
            let out = target_positions_spec(strategy, rows).unwrap();
            let b = anchor_of(rows, strategy).unwrap().unwrap();
            pair_eq(out[b.0].value@, rows[b.0].current_position@)
        }),
{
    let out = target_positions_spec(strategy, rows).unwrap();
    let n = rows.len() as int;
    crate::functions::lemma_anchor_exists(rows, strategy);
    let b = anchor_of(rows, strategy).unwrap().unwrap();
    let qa = b.1;
    lemma_anchor_prefix_extremal(rows, strategy, n);
    assert(scaled_targets(rows, qa) == Some(out));
    lemma_scaled_prefix_values(rows, qa, n);
    lemma_scaled_prefix_shape(rows, qa, n);
    assert forall|j: int|
        0 <= j < rows.len() implies (if (#[trigger] rows[j]).target_allocation@.0 == 0 {
        out[j].value@.0 == 0
    } else if strategy == StrategyState::Buy {
        pair_le(rows[j].current_position@, out[j].value@)
    } else {
        pair_le(out[j].value@, rows[j].current_position@)
    }) by {
        let f = rows[j].target_allocation@;
        let v = rows[j].current_position@;
        let oj = out[j].value@;
        assert(pair_eq(oj, pair_mul(f, qa@)) && oj.1 >= 1) by {
            assert(out[j] == scaled_prefix(rows, qa, n).unwrap()[j]);
        }
        lemma_pair_ops_wf(f, qa@);
        if f.0 == 0 {
            assert(oj.0 == 0) by (nonlinear_arith)
                requires
                    oj.0 * (f.1 * qa@.1) == (f.0 * qa@.0) * oj.1,
                    f.0 == 0,
                    f.1 * qa@.1 >= 1,
            ;
        } else {
            lemma_pair_div_mul_cancel(v, f);
            let quot = quotient_of(rows[j]);
            lemma_pair_ops_wf(f, quot);
            if strategy == StrategyState::Buy {
                lemma_pair_le_mul_left(f, quot, qa@);
                lemma_pair_lt_cong(oj, pair_mul(f, qa@), v, pair_mul(f, quot));
            } else {
                lemma_pair_le_mul_left(f, qa@, quot);
                lemma_pair_lt_cong(v, pair_mul(f, quot), oj, pair_mul(f, qa@));
            }
        }
    }
    let fa = rows[b.0].target_allocation@;
    let va = rows[b.0].current_position@;
    lemma_pair_div_mul_cancel(va, fa);
    lemma_pair_ops_wf(fa, qa@);
    lemma_pair_ops_wf(fa, quotient_of(rows[b.0]));
    lemma_pair_mul_cong(fa, fa, qa@, quotient_of(rows[b.0]));
    lemma_pair_eq_trans(out[b.0].value@, pair_mul(fa, qa@), pair_mul(fa, quotient_of(rows[b.0])));
    lemma_pair_eq_trans(out[b.0].value@, pair_mul(fa, quotient_of(rows[b.0])), va);
}

/// Conservation under BuySell: whenever the computation succeeds on a set
/// that passes both validity predicates, the exact sum of the output
/// values equals the exact sum of the input values.
pub proof fn lemma_buy_sell_conserves_total(rows: Seq<PositionInputState>)
    requires
        rows_wf(rows),
        valid_allocation(rows),
        all_above_zero(rows),
        target_positions_spec(StrategyState::BuySell, rows) is Some,
    ensures
        position_total_spec(rows) is Some,
        pair_eq(
            value_sum(target_positions_spec(StrategyState::BuySell, rows).unwrap()),
            position_total_spec(rows).unwrap(),
        ),
{
    let tp = position_total_spec(rows).unwrap();
    let t = rat_of_pair(tp);
    let out = target_positions_spec(StrategyState::BuySell, rows).unwrap();
    let n = rows.len() as int;
    lemma_total_prefix_fits(rows, n);
    assert(t@ == tp);
    assert(t.wf());
    assert(scaled_targets(rows, t) == Some(out));
    lemma_scaled_prefix_shape(rows, t, n);
    assert(out.len() == n);
    lemma_scaled_value_sum(rows, t, n);
    let raw = frac_raw_prefix(rows, n);
    let s = fraction_sum(rows).unwrap();
    lemma_frac_chain_value(rows, n);
    lemma_frac_prefix_fits(rows, n);
    lemma_frac_raw_wf(rows, n);
    // The fraction sum denotes one, so the scaled sum denotes the total.
    lemma_pair_eq_trans(raw, s, (1int, 1int));
    lemma_pair_mul_cong(raw, (1int, 1int), t@, t@);
    lemma_pair_ops_wf(raw, t@);
    lemma_pair_eq_trans(value_sum(out), pair_mul(raw, t@), tp);
}

} // verus!
