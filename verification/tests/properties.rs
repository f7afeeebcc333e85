use rebalancer::functions::get_target_assets;
use rebalancer::types::{PositionInputState, PositionsDataStore, StrategyState};
use rebalancer::Rational;

fn sample_store() -> PositionsDataStore {
    PositionsDataStore {
        rows: vec![
            PositionInputState {
                id: 10,
                name: "a".to_string(),
                current_position: Rational::from_decimal(1005, 1).unwrap(),
                target_allocation: Rational::from_decimal(3, 1).unwrap(),
            },
            PositionInputState {
                id: 11,
                name: "b".to_string(),
                current_position: Rational::from_decimal(20025, 2).unwrap(),
                target_allocation: Rational::from_decimal(45, 2).unwrap(),
            },
            PositionInputState {
                id: 12,
                name: "c".to_string(),
                current_position: Rational::from_integer(50),
                target_allocation: Rational::from_decimal(25, 2).unwrap(),
            },
        ],
    }
}

#[test]
fn computing_twice_from_one_snapshot_gives_identical_output() {
    let first = get_target_assets(StrategyState::Buy, sample_store()).unwrap();
    let second = get_target_assets(StrategyState::Buy, sample_store()).unwrap();
    assert_eq!(first, second);

    let first = get_target_assets(StrategyState::BuySell, sample_store()).unwrap();
    let second = get_target_assets(StrategyState::BuySell, sample_store()).unwrap();
    assert_eq!(first, second);
}

#[test]
fn output_matches_input_by_identifier_in_order() {
    let ids: Vec<u128> = sample_store().rows.iter().map(|r| r.id).collect();
    for strategy in [StrategyState::Buy, StrategyState::BuySell, StrategyState::Sell] {
        let out = get_target_assets(strategy, sample_store()).unwrap();
        assert_eq!(out.len(), ids.len());
        for (target, id) in out.iter().zip(ids.iter()) {
            assert_eq!(target.id, *id);
        }
    }
}

#[test]
fn buy_sell_conserves_the_total_exactly() {
    // Total: 100.5 + 200.25 + 50 == 350.75.
    let total = sample_store().total().unwrap();
    assert_eq!(total, Rational::from_decimal(35075, 2).unwrap());

    let out = get_target_assets(StrategyState::BuySell, sample_store()).unwrap();
    // 0.3 * 350.75, 0.45 * 350.75, 0.25 * 350.75.
    assert_eq!(out[0].value, Rational::from_decimal(105225, 3).unwrap());
    assert_eq!(out[1].value, Rational::from_decimal(1578375, 4).unwrap());
    assert_eq!(out[2].value, Rational::from_decimal(876875, 4).unwrap());

    let mut sum = Rational::from_integer(0);
    for target in &out {
        sum = sum.checked_add(target.value).unwrap();
    }
    assert_eq!(sum, total);
}

#[test]
fn fractions_summing_below_one_fall_back_to_current_values() {
    // 0.7 + 0.2 == 0.9: not a valid allocation, so Buy mirrors the input.
    let store = PositionsDataStore {
        rows: vec![
            PositionInputState {
                id: 1,
                name: "".to_string(),
                current_position: Rational::from_integer(300),
                target_allocation: Rational::from_decimal(7, 1).unwrap(),
            },
            PositionInputState {
                id: 2,
                name: "".to_string(),
                current_position: Rational::from_integer(100),
                target_allocation: Rational::from_decimal(2, 1).unwrap(),
            },
        ],
    };
    let out = get_target_assets(StrategyState::Buy, store).unwrap();
    assert_eq!(out.len(), 2);
    assert_eq!(out[0].value, Rational::from_integer(300));
    assert_eq!(out[1].value, Rational::from_integer(100));
}

#[test]
fn zero_current_value_falls_back_to_current_values_under_sell() {
    let store = PositionsDataStore {
        rows: vec![
            PositionInputState {
                id: 1,
                name: "".to_string(),
                current_position: Rational::from_integer(0),
                target_allocation: Rational::from_decimal(6, 1).unwrap(),
            },
            PositionInputState {
                id: 2,
                name: "".to_string(),
                current_position: Rational::from_integer(400),
                target_allocation: Rational::from_decimal(4, 1).unwrap(),
            },
        ],
    };
    let out = get_target_assets(StrategyState::Sell, store).unwrap();
    assert_eq!(out.len(), 2);
    assert_eq!(out[0].value, Rational::from_integer(0));
    assert_eq!(out[1].value, Rational::from_integer(400));
}

#[test]
fn negative_current_value_is_mirrored_unchanged() {
    let store = PositionsDataStore {
        rows: vec![
            PositionInputState {
                id: 1,
                name: "".to_string(),
                current_position: Rational::from_integer(-250),
                target_allocation: Rational::from_decimal(5, 1).unwrap(),
            },
            PositionInputState {
                id: 2,
                name: "".to_string(),
                current_position: Rational::from_integer(250),
                target_allocation: Rational::from_decimal(5, 1).unwrap(),
            },
        ],
    };
    let out = get_target_assets(StrategyState::Buy, store).unwrap();
    assert_eq!(out[0].value, Rational::from_integer(-250));
    assert_eq!(out[1].value, Rational::from_integer(250));
}

#[test]
fn empty_set_yields_empty_output() {
    for strategy in [StrategyState::Buy, StrategyState::BuySell, StrategyState::Sell] {
        let out = get_target_assets(strategy, PositionsDataStore { rows: vec![] }).unwrap();
        assert!(out.is_empty());
    }
}

#[test]
fn all_zero_fractions_fall_back_to_current_values() {
    // Fractions sum to zero, so the set is not valid and Buy mirrors it
    // instead of searching for an anchor.
    let store = PositionsDataStore {
        rows: vec![
            PositionInputState {
                id: 1,
                name: "".to_string(),
                current_position: Rational::from_integer(120),
                target_allocation: Rational::from_integer(0),
            },
            PositionInputState {
                id: 2,
                name: "".to_string(),
                current_position: Rational::from_integer(80),
                target_allocation: Rational::from_integer(0),
            },
        ],
    };
    let out = get_target_assets(StrategyState::Buy, store).unwrap();
    assert_eq!(out[0].value, Rational::from_integer(120));
    assert_eq!(out[1].value, Rational::from_integer(80));
}

#[test]
fn zero_fraction_position_is_fully_divested() {
    // A valid set where one position has fraction zero: it cannot anchor
    // the scale factor, and its target is zero.
    let store = PositionsDataStore {
        rows: vec![
            PositionInputState {
                id: 1,
                name: "".to_string(),
                current_position: Rational::from_integer(300),
                target_allocation: Rational::from_decimal(6, 1).unwrap(),
            },
            PositionInputState {
                id: 2,
                name: "".to_string(),
                current_position: Rational::from_integer(100),
                target_allocation: Rational::from_integer(0),
            },
            PositionInputState {
                id: 3,
                name: "".to_string(),
                current_position: Rational::from_integer(100),
                target_allocation: Rational::from_decimal(4, 1).unwrap(),
            },
        ],
    };
    // Quotients: 300/0.6 == 500 and 100/0.4 == 250; Buy anchors at the
    // largest, so the factor is 500.
    let out = get_target_assets(StrategyState::Buy, store).unwrap();
    assert_eq!(out[0].value, Rational::from_integer(300));
    assert_eq!(out[1].value, Rational::from_integer(0));
    assert_eq!(out[2].value, Rational::from_integer(200));
}

#[test]
fn unrepresentable_totals_are_reported_not_rounded() {
    let huge = Rational::from_integer(i64::MAX - 1);
    let store = PositionsDataStore {
        rows: vec![
            PositionInputState {
                id: 1,
                name: "".to_string(),
                current_position: huge,
                target_allocation: Rational::from_decimal(5, 1).unwrap(),
            },
            PositionInputState {
                id: 2,
                name: "".to_string(),
                current_position: huge,
                target_allocation: Rational::from_decimal(5, 1).unwrap(),
            },
        ],
    };
    assert_eq!(get_target_assets(StrategyState::BuySell, store), None);
}
