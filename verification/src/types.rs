//! The data model: positions, the position set with its validity
//! predicates, strategies, and computed target positions.

use crate::rational::{
    opt_view, pair_eq, rat_add_spec, rat_div_spec, Rational,
};
use vstd::prelude::*;

verus! {

broadcast use vstd::string::group_string_axioms;

/// One tracked position: a stable identifier, a display name, the current
/// monetary value and the desired fraction of the total allocation.
#[derive(Clone, Debug, PartialEq)]
pub struct PositionInputState {
    pub id: u128,
    pub name: String,
    pub current_position: Rational,
    pub target_allocation: Rational,
}

impl PositionInputState {
    /// Both numeric fields are well-formed rationals.
    pub open spec fn wf(self) -> bool {
        self.current_position.wf() && self.target_allocation.wf()
    }
}

/// Every row holds well-formed rationals.
pub open spec fn rows_wf(rows: Seq<PositionInputState>) -> bool {
    forall|i: int| 0 <= i < rows.len() ==> (#[trigger] rows[i]).wf()
}

/// Running sum of the first `n` target fractions, each step in lowest
/// terms; `None` as soon as a partial sum cannot be represented.
pub open spec fn frac_sum_prefix(rows: Seq<PositionInputState>, n: int) -> Option<(int, int)>
    decreases n,
{
    if n <= 0 {
        Some((0int, 1int))
    } else {
        match frac_sum_prefix(rows, n - 1) {
            None => None,
            Some(acc) => rat_add_spec(acc, rows[n - 1].target_allocation@),
        }
    }
}

/// The exact sum of all target fractions, when representable.
pub open spec fn fraction_sum(rows: Seq<PositionInputState>) -> Option<(int, int)> {
    frac_sum_prefix(rows, rows.len() as int)
}

/// No target fraction is negative.
pub open spec fn no_negative_fraction(rows: Seq<PositionInputState>) -> bool {
    forall|i: int| 0 <= i < rows.len() ==> (#[trigger] rows[i]).target_allocation@.0 >= 0
}

/// The set is valid for rebalancing: the target fractions sum to exactly
/// one and none is negative.  A set whose running fraction sum cannot be
/// represented is treated as not valid.
pub open spec fn valid_allocation(rows: Seq<PositionInputState>) -> bool {
    &&& match fraction_sum(rows) {
        Some(s) => pair_eq(s, (1int, 1int)),
        None => false,
    }
    &&& no_negative_fraction(rows)
}

/// Every current value is strictly positive (vacuously true of an empty
/// set).
pub open spec fn all_above_zero(rows: Seq<PositionInputState>) -> bool {
    forall|i: int| 0 <= i < rows.len() ==> (#[trigger] rows[i]).current_position@.0 > 0
}

/// Running sum of the first `n` current values, each step in lowest terms;
/// `None` as soon as a partial sum cannot be represented.
pub open spec fn total_prefix(rows: Seq<PositionInputState>, n: int) -> Option<(int, int)>
    decreases n,
{
    if n <= 0 {
        Some((0int, 1int))
    } else {
        match total_prefix(rows, n - 1) {
            None => None,
            Some(acc) => rat_add_spec(acc, rows[n - 1].current_position@),
        }
    }
}

/// The exact sum of all current values, when representable.
pub open spec fn position_total_spec(rows: Seq<PositionInputState>) -> Option<(int, int)> {
    total_prefix(rows, rows.len() as int)
}

/// Once a running fraction sum is unrepresentable, it stays so.
pub proof fn lemma_frac_prefix_none(rows: Seq<PositionInputState>, n: int, m: int)
    requires
        0 <= n <= m,
        frac_sum_prefix(rows, n) is None,
    ensures
        frac_sum_prefix(rows, m) is None,
    decreases m,
{
    if n < m {
        lemma_frac_prefix_none(rows, n, m - 1);
    }
}

/// Once a running value sum is unrepresentable, it stays so.
pub proof fn lemma_total_prefix_none(rows: Seq<PositionInputState>, n: int, m: int)
    requires
        0 <= n <= m,
        total_prefix(rows, n) is None,
    ensures
        total_prefix(rows, m) is None,
    decreases m,
{
    if n < m {
        lemma_total_prefix_none(rows, n, m - 1);
    }
}

/// First row carrying `id` among the first `n`, if any.
pub open spec fn find_prefix(rows: Seq<PositionInputState>, id: u128, n: int) -> Option<int>
    decreases n,
{
    if n <= 0 {
        None
    } else {
        match find_prefix(rows, id, n - 1) {
            Some(j) => Some(j),
            None => if rows[n - 1].id == id {
                Some(n - 1)
            } else {
                None
            },
        }
    }
}

/// First row carrying `id`, if any.
pub open spec fn find_row(rows: Seq<PositionInputState>, id: u128) -> Option<int> {
    find_prefix(rows, id, rows.len() as int)
}

/// While `id` has not occurred, the search stays empty.
proof fn lemma_find_prefix_none(rows: Seq<PositionInputState>, id: u128, n: int)
    requires
        forall|j: int| 0 <= j < n ==> (#[trigger] rows[j]).id != id,
    ensures
        find_prefix(rows, id, n) is None,
    decreases n,
{
    if n > 0 {
        lemma_find_prefix_none(rows, id, n - 1);
    }
}

/// A hit at `n` rows is still the result for any longer prefix.
proof fn lemma_find_prefix_extends(rows: Seq<PositionInputState>, id: u128, n: int, m: int, j: int)
    requires
        0 <= n <= m,
        find_prefix(rows, id, n) == Some(j),
    ensures
        find_prefix(rows, id, m) == Some(j),
    decreases m,
{
    if n < m {
        lemma_find_prefix_extends(rows, id, n, m - 1, j);
    }
}

/// The first hit in row order: a match at `i` after `i` misses settles the
/// search.
pub proof fn lemma_find_first(rows: Seq<PositionInputState>, id: u128, i: int)
    requires
        0 <= i < rows.len(),
        rows[i].id == id,
        forall|j: int| 0 <= j < i ==> (#[trigger] rows[j]).id != id,
    ensures
        find_row(rows, id) == Some(i),
{
    lemma_find_prefix_none(rows, id, i);
    lemma_find_prefix_extends(rows, id, i + 1, rows.len() as int, i);
}

/// What `allocation_for` returns: the share of the total held by the first
/// row carrying `id` — zero when the total is zero — or `None` when a sum
/// or the quotient cannot be represented.
pub open spec fn allocation_for_spec(rows: Seq<PositionInputState>, id: u128) -> Option<
    (int, int),
> {
    match position_total_spec(rows) {
        None => None,
        Some(t) => if t.0 == 0 {
            Some((0int, 1int))
        } else {
            match find_row(rows, id) {
                None => None,
                Some(j) => rat_div_spec(rows[j].current_position@, t),
            }
        },
    }
}

/// The ordered set of positions a computation works on.
#[derive(Clone, Debug, PartialEq)]
pub struct PositionsDataStore {
    pub rows: Vec<PositionInputState>,
}

impl PositionsDataStore {
    /// Every row holds well-formed rationals.
    pub open spec fn wf(&self) -> bool {
        rows_wf(self.rows@)
    }

    /// True iff the target fractions sum to exactly one and none is
    /// negative.  Zero fractions are allowed; an empty set sums to zero
    /// and is therefore not valid.
    pub fn is_valid_target_allocation(&self) -> (b: bool)
        requires
            self.wf(),
        ensures
            b == valid_allocation(self.rows@),
    {
        let n = self.rows.len();
        let mut acc = Rational::from_integer(0);
        let mut i: usize = 0;
        while i < n
            invariant
                i <= n,
                n == self.rows@.len(),
                rows_wf(self.rows@),
                acc.wf(),
                frac_sum_prefix(self.rows@, i as int) == Some(acc@),
            decreases n - i,
        {
            match acc.checked_add(self.rows[i].target_allocation) {
                None => {
                    proof {
                        lemma_frac_prefix_none(self.rows@, i as int + 1, self.rows@.len() as int);
                    }
                    return false;
                },
                Some(s) => {
                    acc = s;
                },
            }
            i = i + 1;
        }
        if acc.num != acc.den {
            return false;
        }
        let mut j: usize = 0;
        while j < n
            invariant
                j <= n,
                n == self.rows@.len(),
                rows_wf(self.rows@),
                forall|k: int| 0 <= k < j ==> (#[trigger] self.rows@[k]).target_allocation@.0 >= 0,
            decreases n - j,
        {
            if self.rows[j].target_allocation.is_negative() {
                return false;
            }
            j = j + 1;
        }
        true
    }

    /// The exact sum of all current values, or `None` when a partial sum
    /// cannot be represented.
    pub fn total(&self) -> (r: Option<Rational>)
        requires
            self.wf(),
        ensures
            opt_view(r) == position_total_spec(self.rows@),
            r is Some ==> r.unwrap().wf(),
    {
        let n = self.rows.len();
        let mut acc = Rational::from_integer(0);
        let mut i: usize = 0;
        while i < n
            invariant
                i <= n,
                n == self.rows@.len(),
                rows_wf(self.rows@),
                acc.wf(),
                total_prefix(self.rows@, i as int) == Some(acc@),
            decreases n - i,
        {
            match acc.checked_add(self.rows[i].current_position) {
                None => {
                    proof {
                        lemma_total_prefix_none(self.rows@, i as int + 1, self.rows@.len() as int);
                    }
                    return None;
                },
                Some(s) => {
                    acc = s;
                },
            }
            i = i + 1;
        }
        Some(acc)
    }

    /// True iff every current value is strictly greater than zero.
    pub fn all_positions_above_zero(&self) -> (b: bool)
        requires
            self.wf(),
        ensures
            b == all_above_zero(self.rows@),
    {
        let n = self.rows.len();
        let mut i: usize = 0;
        while i < n
            invariant
                i <= n,
                n == self.rows@.len(),
                rows_wf(self.rows@),
                forall|k: int| 0 <= k < i ==> (#[trigger] self.rows@[k]).current_position@.0 > 0,
            decreases n - i,
        {
            if !self.rows[i].current_position.is_positive() {
                return false;
            }
            i = i + 1;
        }
        true
    }

    /// The share of the total held by the (first) row carrying `id`: its
    /// current value divided by the sum of all current values, or zero
    /// when that sum is zero.  `None` when a sum or the quotient cannot be
    /// represented.  The identifier must occur in the set.
    pub fn allocation_for(&self, id: u128) -> (r: Option<Rational>)
        requires
            self.wf(),
            exists|i: int| 0 <= i < self.rows@.len() && (#[trigger] self.rows@[i]).id == id,
        ensures
            opt_view(r) == allocation_for_spec(self.rows@, id),
            r is Some ==> r.unwrap().wf(),
    {
        let t = match self.total() {
            None => {
                return None;
            },
            Some(t) => t,
        };
        if t.is_zero() {
            return Some(Rational::from_integer(0));
        }
        let n = self.rows.len();
        let mut i: usize = 0;
        while i < n
            invariant
                i <= n,
                n == self.rows@.len(),
                rows_wf(self.rows@),
                exists|k: int| 0 <= k < self.rows@.len() && (#[trigger] self.rows@[k]).id == id,
                forall|j: int| 0 <= j < i ==> (#[trigger] self.rows@[j]).id != id,
                t.wf(),
                t.num != 0,
                position_total_spec(self.rows@) == Some(t@),
            decreases n - i,
        {
            if self.rows[i].id == id {
                proof {
                    lemma_find_first(self.rows@, id, i as int);
                }
                return self.rows[i].current_position.checked_div(t);
            }
            i = i + 1;
        }
        proof {
            assert(false);
        }
        None
    }
}

impl Default for PositionsDataStore {
    /// The starting set offered to a fresh caller: two empty positions
    /// split seventy/thirty, with identifiers 1 and 2.
    fn default() -> (r: Self)
        ensures
            r.wf(),
            r.rows@.len() == 2,
            r.rows@[0].id == 1 && r.rows@[1].id == 2,
            r.rows@[0].name@ == "Position 1"@ && r.rows@[1].name@ == "Position 2"@,
            r.rows@[0].current_position@ == (0int, 1int),
            r.rows@[1].current_position@ == (0int, 1int),
            pair_eq(r.rows@[0].target_allocation@, (7int, 10int)),
            pair_eq(r.rows@[1].target_allocation@, (3int, 10int)),
    {
        let seventy = Rational::from_decimal(70, 2).unwrap();
        let thirty = Rational::from_decimal(30, 2).unwrap();
        proof {
            assert(crate::rational::pow10(2) == 100) by {
                reveal_with_fuel(crate::rational::pow10, 3);
            }
            crate::rational::lemma_pair_eq_trans(
                seventy@,
                (70int, 100int),
                (7int, 10int),
            );
            crate::rational::lemma_pair_eq_trans(
                thirty@,
                (30int, 100int),
                (3int, 10int),
            );
        }
        PositionsDataStore {
            rows: vec![
                PositionInputState {
                    id: 1,
                    name: "Position 1".to_string(),
                    current_position: Rational::from_integer(0),
                    target_allocation: seventy,
                },
                PositionInputState {
                    id: 2,
                    name: "Position 2".to_string(),
                    current_position: Rational::from_integer(0),
                    target_allocation: thirty,
                },
            ],
        }
    }
}

/// The rebalancing mode: only add funds, freely reallocate, or only
/// divest.
#[derive(Clone, Copy, Debug, PartialEq, Eq, Structural, Hash)]
pub enum StrategyState {
    Buy,
    BuySell,
    Sell,
}

impl Default for StrategyState {
    /// The mode a fresh caller starts in.
    fn default() -> (r: Self)
        ensures
            r == StrategyState::Buy,
    {
        StrategyState::Buy
    }
}

/// One computed outcome: the identifier of an input position and its
/// post-rebalance target value.
#[derive(Clone, Copy, Debug, PartialEq, Eq, Structural)]
pub struct TargetPosition {
    pub id: u128,
    pub value: Rational,
}

} // verus!
