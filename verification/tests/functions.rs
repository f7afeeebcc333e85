use rebalancer::functions::get_target_assets;
use rebalancer::types::{PositionInputState, PositionsDataStore, StrategyState};
use rebalancer::Rational;

#[test]
fn functions_get_target_assets_negative_position_mirrors_input() {
    // Arrange
    let first_id: u128 = 1;
    let second_id: u128 = 2;
    let third_id: u128 = 3;
    let positions_store = PositionsDataStore {
        rows: vec![
            PositionInputState {
                id: first_id,
                name: "".to_string(),
                current_position: Rational::from_integer(-300),
                target_allocation: Rational::from_decimal(7, 1).unwrap(),
            },
            PositionInputState {
                id: second_id,
                name: "".to_string(),
                current_position: Rational::from_integer(300),
                target_allocation: Rational::from_decimal(2, 1).unwrap(),
            },
            PositionInputState {
                id: third_id,
                name: "".to_string(),
                current_position: Rational::from_integer(200),
                target_allocation: Rational::from_decimal(1, 1).unwrap(),
            },
        ],
    };

    // Act
    let result = get_target_assets(StrategyState::Buy, positions_store).unwrap();

    // Assert
    assert_eq!(result.len(), 3);
    assert_eq!(result[0].id, first_id);
    assert_eq!(result[0].value, Rational::from_integer(-300));
    assert_eq!(result[1].id, second_id);
    assert_eq!(result[1].value, Rational::from_integer(300));
    assert_eq!(result[2].id, third_id);
    assert_eq!(result[2].value, Rational::from_integer(200));
}

#[test]
fn functions_get_target_assets_zero_position_mirrors_input() {
    // Arrange
    let first_id: u128 = 1;
    let second_id: u128 = 2;
    let third_id: u128 = 3;
    let positions_store = PositionsDataStore {
        rows: vec![
            PositionInputState {
                id: first_id,
                name: "".to_string(),
                current_position: Rational::from_integer(0),
                target_allocation: Rational::from_decimal(7, 1).unwrap(),
            },
            PositionInputState {
                id: second_id,
                name: "".to_string(),
                current_position: Rational::from_integer(300),
                target_allocation: Rational::from_decimal(2, 1).unwrap(),
            },
            PositionInputState {
                id: third_id,
                name: "".to_string(),
                current_position: Rational::from_integer(200),
                target_allocation: Rational::from_decimal(1, 1).unwrap(),
            },
        ],
    };

    // Act
    let result = get_target_assets(StrategyState::Buy, positions_store).unwrap();

    // Assert
    assert_eq!(result.len(), 3);
    assert_eq!(result[0].id, first_id);
    assert_eq!(result[0].value, Rational::from_integer(0));
    assert_eq!(result[1].id, second_id);
    assert_eq!(result[1].value, Rational::from_integer(300));
    assert_eq!(result[2].id, third_id);
    assert_eq!(result[2].value, Rational::from_integer(200));
}

#[test]
fn functions_get_target_assets_negative_allocation_mirrors_input() {
    // Arrange
    let first_id: u128 = 1;
    let second_id: u128 = 2;
    let third_id: u128 = 3;
    let positions_store = PositionsDataStore {
        rows: vec![
            PositionInputState {
                id: first_id,
                name: "".to_string(),
                current_position: Rational::from_integer(300),
                target_allocation: Rational::from_decimal(14, 1).unwrap(),
            },
            PositionInputState {
                id: second_id,
                name: "".to_string(),
                current_position: Rational::from_integer(300),
                target_allocation: Rational::from_decimal(6, 1).unwrap(),
            },
            PositionInputState {
                id: third_id,
                name: "".to_string(),
                current_position: Rational::from_integer(200),
                target_allocation: Rational::from_integer(-1),
            },
        ],
    };

    // Act
    let result = get_target_assets(StrategyState::Buy, positions_store).unwrap();

    // Assert
    assert_eq!(result.len(), 3);
    assert_eq!(result[0].id, first_id);
    assert_eq!(result[0].value, Rational::from_integer(300));
    assert_eq!(result[1].id, second_id);
    assert_eq!(result[1].value, Rational::from_integer(300));
    assert_eq!(result[2].id, third_id);
    assert_eq!(result[2].value, Rational::from_integer(200));
}

#[test]
fn functions_get_target_assets_target_allocations_dont_sum_up_to_one_hundred_mirrors_input() {
    // Arrange
    let first_id: u128 = 1;
    let second_id: u128 = 2;
    let third_id: u128 = 3;
    let positions_store = PositionsDataStore {
        rows: vec![
            PositionInputState {
                id: first_id,
                name: "".to_string(),
                current_position: Rational::from_integer(300),
                target_allocation: Rational::from_decimal(7, 1).unwrap(),
            },
            PositionInputState {
                id: second_id,
                name: "".to_string(),
                current_position: Rational::from_integer(300),
                target_allocation: Rational::from_decimal(2, 1).unwrap(),
            },
            PositionInputState {
                id: third_id,
                name: "".to_string(),
                current_position: Rational::from_integer(200),
                target_allocation: Rational::from_integer(0),
            },
        ],
    };

    // Act
    let result = get_target_assets(StrategyState::Buy, positions_store).unwrap();

    // Assert
    assert_eq!(result.len(), 3);
    assert_eq!(result[0].id, first_id);
    assert_eq!(result[0].value, Rational::from_integer(300));
    assert_eq!(result[1].id, second_id);
    assert_eq!(result[1].value, Rational::from_integer(300));
    assert_eq!(result[2].id, third_id);
    assert_eq!(result[2].value, Rational::from_integer(200));
}

#[test]
fn functions_get_target_assets_target_allocations_above_one_hundred_mirrors_input() {
    // Arrange
    let first_id: u128 = 1;
    let second_id: u128 = 2;
    let third_id: u128 = 3;
    let positions_store = PositionsDataStore {
        rows: vec![
            PositionInputState {
                id: first_id,
                name: "".to_string(),
                current_position: Rational::from_integer(300),
                target_allocation: Rational::from_decimal(7, 1).unwrap(),
            },
            PositionInputState {
                id: second_id,
                name: "".to_string(),
                current_position: Rational::from_integer(300),
                target_allocation: Rational::from_decimal(2, 1).unwrap(),
            },
            PositionInputState {
                id: third_id,
                name: "".to_string(),
                current_position: Rational::from_integer(200),
                target_allocation: Rational::from_decimal(2, 1).unwrap(),
            },
        ],
    };

    // Act
    let result = get_target_assets(StrategyState::Buy, positions_store).unwrap();

    // Assert
    assert_eq!(result.len(), 3);
    assert_eq!(result[0].id, first_id);
    assert_eq!(result[0].value, Rational::from_integer(300));
    assert_eq!(result[1].id, second_id);
    assert_eq!(result[1].value, Rational::from_integer(300));
    assert_eq!(result[2].id, third_id);
    assert_eq!(result[2].value, Rational::from_integer(200));
}

#[test]
fn functions_get_target_assets_buy_strategy_works() {
    // Arrange
    let first_id: u128 = 1;
    let second_id: u128 = 2;
    let third_id: u128 = 3;
    let positions_store = PositionsDataStore {
        rows: vec![
            PositionInputState {
                id: first_id,
                name: "".to_string(),
                current_position: Rational::from_integer(300),
                target_allocation: Rational::from_decimal(7, 1).unwrap(),
            },
            PositionInputState {
                id: second_id,
                name: "".to_string(),
                current_position: Rational::from_integer(300),
                target_allocation: Rational::from_decimal(2, 1).unwrap(),
            },
            PositionInputState {
                id: third_id,
                name: "".to_string(),
                current_position: Rational::from_integer(200),
                target_allocation: Rational::from_decimal(1, 1).unwrap(),
            },
        ],
    };

    // Act
    let result = get_target_assets(StrategyState::Buy, positions_store).unwrap();

    // Assert
    assert_eq!(result.len(), 3);
    assert_eq!(result[0].id, first_id);
    assert_eq!(result[0].value, Rational::from_integer(1400));
    assert_eq!(result[1].id, second_id);
    assert_eq!(result[1].value, Rational::from_integer(400));
    assert_eq!(result[2].id, third_id);
    assert_eq!(result[2].value, Rational::from_integer(200));
}

#[test]
fn functions_get_target_assets_sell_strategy_works() {
    // Arrange
    let first_id: u128 = 1;
    let second_id: u128 = 2;
    let third_id: u128 = 3;
    let positions_store = PositionsDataStore {
        rows: vec![
            PositionInputState {
                id: first_id,
                name: "".to_string(),
                current_position: Rational::from_integer(700),
                target_allocation: Rational::from_decimal(7, 1).unwrap(),
            },
            PositionInputState {
                id: second_id,
                name: "".to_string(),
                current_position: Rational::from_integer(300),
                target_allocation: Rational::from_decimal(2, 1).unwrap(),
            },
            PositionInputState {
                id: third_id,
                name: "".to_string(),
                current_position: Rational::from_integer(300),
                target_allocation: Rational::from_decimal(1, 1).unwrap(),
            },
        ],
    };

    // Act
    let result = get_target_assets(StrategyState::Sell, positions_store).unwrap();

    // Assert
    assert_eq!(result.len(), 3);
    assert_eq!(result[0].id, first_id);
    assert_eq!(result[0].value, Rational::from_integer(700));
    assert_eq!(result[1].id, second_id);
    assert_eq!(result[1].value, Rational::from_integer(200));
    assert_eq!(result[2].id, third_id);
    assert_eq!(result[2].value, Rational::from_integer(100));
}

#[test]
fn functions_get_target_assets_buy_sell_strategy_works() {
    // Arrange
    let first_id: u128 = 1;
    let second_id: u128 = 2;
    let third_id: u128 = 3;
    let positions_store = PositionsDataStore {
        rows: vec![
            PositionInputState {
                id: first_id,
                name: "".to_string(),
                current_position: Rational::from_integer(300),
                target_allocation: Rational::from_decimal(7, 1).unwrap(),
            },
            PositionInputState {
                id: second_id,
                name: "".to_string(),
                current_position: Rational::from_integer(300),
                target_allocation: Rational::from_decimal(2, 1).unwrap(),
            },
            PositionInputState {
                id: third_id,
                name: "".to_string(),
                current_position: Rational::from_integer(200),
                target_allocation: Rational::from_decimal(1, 1).unwrap(),
            },
        ],
    };

    // Act
    let result = get_target_assets(StrategyState::BuySell, positions_store).unwrap();

    // Assert
    assert_eq!(result.len(), 3);
    assert_eq!(result[0].id, first_id);
    assert_eq!(result[0].value, Rational::from_integer(560));
    assert_eq!(result[1].id, second_id);
    assert_eq!(result[1].value, Rational::from_integer(160));
    assert_eq!(result[2].id, third_id);
    assert_eq!(result[2].value, Rational::from_integer(80));
}
