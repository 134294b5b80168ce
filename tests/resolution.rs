use game::game_state::{GameState, Move};
use game::world::{Coordinate, Space, Spaces, BOARD_SIZE};

fn empty_board() -> Spaces {
    [[Space::Empty; BOARD_SIZE]; BOARD_SIZE]
}

fn c(x: usize, y: usize) -> Coordinate {
    Coordinate { x, y }
}

fn total_units(spaces: &Spaces) -> usize {
    let mut total = 0;
    for x in 0..BOARD_SIZE {
        for y in 0..BOARD_SIZE {
            total += spaces[x][y].get_units();
        }
    }
    total
}

#[test]
fn lone_reinforcement() {
    let mut spaces = empty_board();
    spaces[0][0] = Space::PlayerEmpty { owner: 0, units: 5 };
    spaces[0][1] = Space::PlayerEmpty { owner: 0, units: 3 };
    let mut game = GameState { spaces, turn: 0 };
    game.handle_moves(vec![Move { owner: 0, from: c(0, 0), to: c(0, 1), units: 5 }]);
    assert_eq!(game.spaces[0][0], Space::PlayerEmpty { owner: 0, units: 0 });
    assert_eq!(game.spaces[0][1], Space::PlayerEmpty { owner: 0, units: 8 });
    assert_eq!(game.spaces[5][5], Space::Empty);
    assert_eq!(game.turn, 0);
}

#[test]
fn head_on_swap_equal() {
    let mut spaces = empty_board();
    spaces[0][0] = Space::PlayerEmpty { owner: 0, units: 4 };
    spaces[0][1] = Space::PlayerEmpty { owner: 1, units: 4 };
    let mut game = GameState { spaces, turn: 0 };
    game.handle_moves(vec![
        Move { owner: 0, from: c(0, 0), to: c(0, 1), units: 4 },
        Move { owner: 1, from: c(0, 1), to: c(0, 0), units: 4 },
    ]);
    assert_eq!(game.spaces[0][0], Space::PlayerEmpty { owner: 0, units: 0 });
    assert_eq!(game.spaces[0][1], Space::PlayerEmpty { owner: 1, units: 0 });
}

#[test]
fn head_on_swap_unequal() {
    let mut spaces = empty_board();
    spaces[0][0] = Space::PlayerEmpty { owner: 0, units: 5 };
    spaces[0][1] = Space::PlayerEmpty { owner: 1, units: 3 };
    let mut game = GameState { spaces, turn: 0 };
    game.handle_moves(vec![
        Move { owner: 0, from: c(0, 0), to: c(0, 1), units: 5 },
        Move { owner: 1, from: c(0, 1), to: c(0, 0), units: 3 },
    ]);
    assert_eq!(game.spaces[0][1], Space::PlayerEmpty { owner: 0, units: 1 });
    assert_eq!(game.spaces[0][0], Space::PlayerEmpty { owner: 0, units: 0 });
}

#[test]
fn head_on_swap_margin_of_one_takes_nothing() {
    let mut spaces = empty_board();
    spaces[2][2] = Space::PlayerTown { owner: 0, units: 4 };
    spaces[2][3] = Space::PlayerEmpty { owner: 1, units: 3 };
    let mut game = GameState { spaces, turn: 0 };
    game.handle_moves(vec![
        Move { owner: 0, from: c(2, 2), to: c(2, 3), units: 4 },
        Move { owner: 1, from: c(2, 3), to: c(2, 2), units: 3 },
    ]);
    assert_eq!(game.spaces[2][2], Space::PlayerTown { owner: 0, units: 0 });
    assert_eq!(game.spaces[2][3], Space::PlayerEmpty { owner: 1, units: 0 });
}

#[test]
fn three_way_attack_on_one_tile() {
    let mut spaces = empty_board();
    spaces[5][5] = Space::NeutralTown { units: 2 };
    spaces[4][5] = Space::PlayerEmpty { owner: 0, units: 7 };
    spaces[6][5] = Space::PlayerEmpty { owner: 1, units: 4 };
    spaces[5][4] = Space::PlayerEmpty { owner: 2, units: 5 };
    let mut game = GameState { spaces, turn: 0 };
    game.handle_moves(vec![
        Move { owner: 0, from: c(4, 5), to: c(5, 5), units: 7 },
        Move { owner: 1, from: c(6, 5), to: c(5, 5), units: 4 },
        Move { owner: 2, from: c(5, 4), to: c(5, 5), units: 5 },
    ]);
    assert_eq!(game.spaces[5][5], Space::NeutralTown { units: 0 });
    assert_eq!(game.spaces[4][5], Space::PlayerEmpty { owner: 0, units: 0 });
    assert_eq!(game.spaces[6][5], Space::PlayerEmpty { owner: 1, units: 0 });
    assert_eq!(game.spaces[5][4], Space::PlayerEmpty { owner: 2, units: 0 });
}

#[test]
fn tied_strongest_attackers_destroy_each_other() {
    let mut spaces = empty_board();
    spaces[5][5] = Space::Empty;
    spaces[4][5] = Space::PlayerEmpty { owner: 0, units: 6 };
    spaces[6][5] = Space::PlayerEmpty { owner: 1, units: 6 };
    spaces[5][4] = Space::PlayerEmpty { owner: 2, units: 2 };
    let mut game = GameState { spaces, turn: 0 };
    game.handle_moves(vec![
        Move { owner: 0, from: c(4, 5), to: c(5, 5), units: 6 },
        Move { owner: 1, from: c(6, 5), to: c(5, 5), units: 6 },
        Move { owner: 2, from: c(5, 4), to: c(5, 5), units: 2 },
    ]);
    assert_eq!(game.spaces[5][5], Space::Empty);
}

#[test]
fn capture_a_capital() {
    let mut spaces = empty_board();
    spaces[3][3] = Space::PlayerCapital { owner: 1, units: 3 };
    spaces[3][2] = Space::PlayerEmpty { owner: 0, units: 7 };
    let mut game = GameState { spaces, turn: 0 };
    game.handle_moves(vec![Move { owner: 0, from: c(3, 2), to: c(3, 3), units: 7 }]);
    assert_eq!(game.spaces[3][3], Space::PlayerCapital { owner: 0, units: 3 });
    assert_eq!(game.spaces[3][2], Space::PlayerEmpty { owner: 0, units: 0 });
}

#[test]
fn neutral_town_taken_becomes_player_town() {
    let mut spaces = empty_board();
    spaces[1][1] = Space::NeutralTown { units: 2 };
    spaces[1][2] = Space::PlayerCapital { owner: 3, units: 9 };
    let mut game = GameState { spaces, turn: 0 };
    game.handle_moves(vec![Move { owner: 3, from: c(1, 2), to: c(1, 1), units: 9 }]);
    assert_eq!(game.spaces[1][1], Space::PlayerTown { owner: 3, units: 6 });
    assert_eq!(game.spaces[1][2], Space::PlayerCapital { owner: 3, units: 0 });
}

#[test]
fn empty_tile_taken_becomes_player_land() {
    let mut spaces = empty_board();
    spaces[7][7] = Space::PlayerEmpty { owner: 1, units: 4 };
    let mut game = GameState { spaces, turn: 0 };
    game.handle_moves(vec![Move { owner: 1, from: c(7, 7), to: c(7, 8), units: 4 }]);
    assert_eq!(game.spaces[7][8], Space::PlayerEmpty { owner: 1, units: 3 });
}

#[test]
fn attack_on_empty_tile_with_one_unit_changes_nothing() {
    let mut spaces = empty_board();
    spaces[7][7] = Space::PlayerEmpty { owner: 1, units: 1 };
    let mut game = GameState { spaces, turn: 0 };
    game.handle_moves(vec![Move { owner: 1, from: c(7, 7), to: c(7, 8), units: 1 }]);
    assert_eq!(game.spaces[7][8], Space::Empty);
    assert_eq!(game.spaces[7][7], Space::PlayerEmpty { owner: 1, units: 0 });
}

#[test]
fn defender_bonus_boundary_keeps_owner() {
    let mut spaces = empty_board();
    spaces[8][8] = Space::PlayerTown { owner: 2, units: 4 };
    spaces[8][9] = Space::PlayerEmpty { owner: 0, units: 5 };
    let mut game = GameState { spaces, turn: 0 };
    game.handle_moves(vec![Move { owner: 0, from: c(8, 9), to: c(8, 8), units: 5 }]);
    assert_eq!(game.spaces[8][8], Space::PlayerTown { owner: 2, units: 0 });
}

#[test]
fn defender_keeps_remainder() {
    let mut spaces = empty_board();
    spaces[8][8] = Space::PlayerTown { owner: 2, units: 10 };
    spaces[8][9] = Space::PlayerEmpty { owner: 0, units: 4 };
    let mut game = GameState { spaces, turn: 0 };
    game.handle_moves(vec![Move { owner: 0, from: c(8, 9), to: c(8, 8), units: 4 }]);
    assert_eq!(game.spaces[8][8], Space::PlayerTown { owner: 2, units: 6 });
}

#[test]
fn reinforcement_then_attack_meets_merged_garrison() {
    let mut spaces = empty_board();
    spaces[10][10] = Space::PlayerEmpty { owner: 0, units: 1 };
    spaces[10][11] = Space::PlayerEmpty { owner: 0, units: 3 };
    spaces[11][10] = Space::PlayerEmpty { owner: 1, units: 5 };
    let mut game = GameState { spaces, turn: 0 };
    game.handle_moves(vec![
        Move { owner: 0, from: c(10, 11), to: c(10, 10), units: 3 },
        Move { owner: 1, from: c(11, 10), to: c(10, 10), units: 5 },
    ]);
    // 1 + 3 defenders; 5 attackers only meet the bonus.
    assert_eq!(game.spaces[10][10], Space::PlayerEmpty { owner: 0, units: 0 });
}

#[test]
fn resolution_ignores_move_order() {
    let mut spaces = empty_board();
    spaces[5][5] = Space::NeutralTown { units: 1 };
    spaces[4][5] = Space::PlayerEmpty { owner: 0, units: 9 };
    spaces[6][5] = Space::PlayerEmpty { owner: 1, units: 4 };
    spaces[5][6] = Space::PlayerTown { owner: 2, units: 3 };
    spaces[5][7] = Space::PlayerEmpty { owner: 3, units: 2 };
    let moves = vec![
        Move { owner: 0, from: c(4, 5), to: c(5, 5), units: 9 },
        Move { owner: 1, from: c(6, 5), to: c(5, 5), units: 4 },
        Move { owner: 2, from: c(5, 6), to: c(5, 7), units: 3 },
        Move { owner: 3, from: c(5, 7), to: c(5, 6), units: 2 },
    ];
    let mut first = GameState { spaces, turn: 0 };
    first.handle_moves(moves.clone());
    let mut reversed_moves = moves.clone();
    reversed_moves.reverse();
    let mut second = GameState { spaces, turn: 0 };
    second.handle_moves(reversed_moves);
    let mut rotated_moves = moves.clone();
    rotated_moves.rotate_left(1);
    let mut third = GameState { spaces, turn: 0 };
    third.handle_moves(rotated_moves);
    assert_eq!(first.spaces, second.spaces);
    assert_eq!(first.spaces, third.spaces);
    assert_eq!(first.spaces[5][5], Space::PlayerTown { owner: 0, units: 3 });
}

#[test]
fn friendly_moves_conserve_units() {
    let mut spaces = empty_board();
    spaces[0][0] = Space::PlayerCapital { owner: 0, units: 5 };
    spaces[0][1] = Space::PlayerEmpty { owner: 0, units: 2 };
    spaces[9][9] = Space::PlayerTown { owner: 1, units: 7 };
    spaces[9][10] = Space::PlayerEmpty { owner: 1, units: 1 };
    spaces[3][3] = Space::NeutralTown { units: 50 };
    let before = total_units(&spaces);
    let mut game = GameState { spaces, turn: 0 };
    game.handle_moves(vec![
        Move { owner: 0, from: c(0, 0), to: c(0, 1), units: 5 },
        Move { owner: 1, from: c(9, 10), to: c(9, 9), units: 1 },
    ]);
    assert_eq!(total_units(&game.spaces), before);
    assert_eq!(game.spaces[0][1], Space::PlayerEmpty { owner: 0, units: 7 });
    assert_eq!(game.spaces[9][9], Space::PlayerTown { owner: 1, units: 8 });
}

#[test]
fn no_moves_change_nothing() {
    let mut spaces = empty_board();
    spaces[4][4] = Space::PlayerTown { owner: 0, units: 3 };
    spaces[6][6] = Space::Mountain;
    let mut game = GameState { spaces, turn: 7 };
    game.handle_moves(vec![]);
    assert_eq!(game.spaces, spaces);
    assert_eq!(game.turn, 7);
}
