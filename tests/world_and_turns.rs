use game::agent::Ai;
use game::connectivity::still_connected;
use game::game_state::GameState;
use game::generator::{
    place_mountain, GenerationInfeasible, CAPITAL_STARTING_UNITS, NEUTRAL_TOWN_STARTING_UNITS, NUM_MOUNTAINS,
    NUM_TOWNS,
};
use game::turn::{gather_moves, validate_move};
use game::world::{Coordinate, Space, Spaces, BOARD_SIZE};

fn empty_board() -> Spaces {
    [[Space::Empty; BOARD_SIZE]; BOARD_SIZE]
}

fn c(x: usize, y: usize) -> Coordinate {
    Coordinate { x, y }
}

#[test]
fn tile_accessors() {
    let capital = Space::PlayerCapital { owner: 2, units: 7 };
    assert_eq!(capital.get_units(), 7);
    assert_eq!(capital.expect_units(), 7);
    assert_eq!(capital.owner(), Some(2));
    assert_eq!(Space::NeutralTown { units: 50 }.owner(), None);
    assert_eq!(Space::NeutralTown { units: 50 }.get_units(), 50);
    assert_eq!(Space::Mountain.get_units(), 0);
    assert_eq!(Space::Empty.get_units(), 0);
    assert_eq!(Space::Empty.owner(), None);
    let mut town = Space::PlayerTown { owner: 1, units: 4 };
    town.unsafe_set_units(11);
    assert_eq!(town, Space::PlayerTown { owner: 1, units: 11 });
}

#[test]
fn surrounding_is_clipped_to_the_board() {
    assert_eq!(c(0, 0).surrounding(), vec![c(1, 0), c(0, 1)]);
    assert_eq!(c(5, 7).surrounding(), vec![c(4, 7), c(5, 6), c(6, 7), c(5, 8)]);
    assert_eq!(c(19, 19).surrounding(), vec![c(18, 19), c(19, 18)]);
    assert_eq!(c(19, 0).surrounding(), vec![c(18, 0), c(19, 1)]);
}

#[test]
fn regeneration_on_even_turn() {
    let mut spaces = empty_board();
    spaces[0][0] = Space::PlayerCapital { owner: 0, units: 5 };
    spaces[1][0] = Space::PlayerTown { owner: 0, units: 2 };
    spaces[2][0] = Space::PlayerEmpty { owner: 0, units: 1 };
    spaces[3][0] = Space::NeutralTown { units: 50 };
    let mut game = GameState { spaces, turn: 4 };
    game.populate_spaces();
    assert_eq!(game.spaces[0][0], Space::PlayerCapital { owner: 0, units: 6 });
    assert_eq!(game.spaces[1][0], Space::PlayerTown { owner: 0, units: 3 });
    assert_eq!(game.spaces[2][0], Space::PlayerEmpty { owner: 0, units: 1 });
    assert_eq!(game.spaces[3][0], Space::NeutralTown { units: 50 });
    assert_eq!(game.turn, 4);
}

#[test]
fn regeneration_on_turn_fifty() {
    let mut spaces = empty_board();
    spaces[1][0] = Space::PlayerTown { owner: 0, units: 2 };
    spaces[2][0] = Space::PlayerEmpty { owner: 0, units: 1 };
    let mut game = GameState { spaces, turn: 50 };
    game.populate_spaces();
    assert_eq!(game.spaces[1][0], Space::PlayerTown { owner: 0, units: 3 });
    assert_eq!(game.spaces[2][0], Space::PlayerEmpty { owner: 0, units: 2 });
}

#[test]
fn regeneration_cadence_over_idle_turns() {
    let mut spaces = empty_board();
    spaces[0][0] = Space::PlayerCapital { owner: 0, units: 5 };
    spaces[1][0] = Space::PlayerTown { owner: 0, units: 0 };
    spaces[2][0] = Space::PlayerEmpty { owner: 0, units: 0 };
    let mut game = GameState { spaces, turn: 0 };
    let passes = vec![None, None];
    for _ in 0..51 {
        game.play_turn(&passes);
    }
    assert_eq!(game.turn, 51);
    // Turns 0..=50: 51 for the capital, 26 even turns, three multiples of 25.
    assert_eq!(game.spaces[0][0], Space::PlayerCapital { owner: 0, units: 56 });
    assert_eq!(game.spaces[1][0], Space::PlayerTown { owner: 0, units: 26 });
    assert_eq!(game.spaces[2][0], Space::PlayerEmpty { owner: 0, units: 3 });
}

#[test]
fn pass_agent_still_advances_turn() {
    let mut spaces = empty_board();
    spaces[0][0] = Space::PlayerCapital { owner: 0, units: 5 };
    spaces[9][9] = Space::PlayerCapital { owner: 1, units: 5 };
    spaces[15][15] = Space::PlayerCapital { owner: 2, units: 5 };
    let mut game = GameState { spaces, turn: 3 };
    let proposals = vec![Some((c(0, 0), c(0, 1))), Some((c(9, 9), c(9, 10))), None];
    game.play_turn(&proposals);
    assert_eq!(game.turn, 4);
    assert_eq!(game.spaces[0][1], Space::PlayerEmpty { owner: 0, units: 4 });
    assert_eq!(game.spaces[0][0], Space::PlayerCapital { owner: 0, units: 1 });
    assert_eq!(game.spaces[9][10], Space::PlayerEmpty { owner: 1, units: 4 });
    assert_eq!(game.spaces[15][15], Space::PlayerCapital { owner: 2, units: 6 });
}

#[test]
fn snapshots_count_up_by_one() {
    let mut game = GameState { spaces: empty_board(), turn: 0 };
    let mut seen = vec![];
    for _ in 0..5 {
        game.play_turn(&vec![]);
        seen.push(game.turn);
    }
    assert_eq!(seen, vec![1, 2, 3, 4, 5]);
}

#[test]
fn invalid_proposals_are_dropped() {
    let mut spaces = empty_board();
    spaces[0][0] = Space::PlayerCapital { owner: 0, units: 5 };
    spaces[1][0] = Space::Mountain;
    spaces[5][5] = Space::PlayerEmpty { owner: 1, units: 4 };
    // not adjacent
    assert_eq!(validate_move(&spaces, 0, c(0, 0), c(2, 0)), None);
    // onto a mountain
    assert_eq!(validate_move(&spaces, 0, c(0, 0), c(1, 0)), None);
    // from a tile the player does not hold
    assert_eq!(validate_move(&spaces, 1, c(0, 0), c(0, 1)), None);
    assert_eq!(validate_move(&spaces, 0, c(3, 3), c(3, 4)), None);
    // out of bounds
    assert_eq!(validate_move(&spaces, 0, c(0, 0), c(0, BOARD_SIZE)), None);
    assert_eq!(validate_move(&spaces, 0, c(25, 0), c(24, 0)), None);
    // diagonal
    assert_eq!(validate_move(&spaces, 1, c(5, 5), c(6, 6)), None);
    let accepted = validate_move(&spaces, 0, c(0, 0), c(0, 1)).unwrap();
    assert_eq!(accepted.units, 5);
    assert_eq!(accepted.owner, 0);
    let moves = gather_moves(&spaces, &vec![Some((c(0, 0), c(1, 0))), Some((c(5, 5), c(5, 4)))]);
    assert_eq!(moves.len(), 1);
    assert_eq!(moves[0].owner, 1);
    assert_eq!(moves[0].units, 4);
}

#[test]
fn connectivity_of_boards() {
    let mut spaces = empty_board();
    assert!(still_connected(&spaces));
    for y in 0..BOARD_SIZE {
        spaces[10][y] = Space::Mountain;
    }
    assert!(!still_connected(&spaces));
    spaces[10][3] = Space::Empty;
    assert!(still_connected(&spaces));
    let all_mountains = [[Space::Mountain; BOARD_SIZE]; BOARD_SIZE];
    assert!(still_connected(&all_mountains));
}

#[test]
fn mountains_that_would_cut_the_board_are_refused() {
    let mut spaces = empty_board();
    spaces[0][1] = Space::Mountain;
    assert!(!place_mountain(&mut spaces, c(1, 0)));
    assert_eq!(spaces[1][0], Space::Empty);
    assert!(place_mountain(&mut spaces, c(5, 5)));
    assert_eq!(spaces[5][5], Space::Mountain);
}

#[test]
fn generated_board_is_complete_and_connected() {
    let game = GameState::new(3).unwrap();
    assert_eq!(game.turn, 0);
    assert!(still_connected(&game.spaces));
    let mut mountains = 0;
    let mut towns = 0;
    let mut capitals = vec![0; 3];
    for x in 0..BOARD_SIZE {
        for y in 0..BOARD_SIZE {
            match game.spaces[x][y] {
                Space::Mountain => mountains += 1,
                Space::NeutralTown { units } => {
                    assert_eq!(units, NEUTRAL_TOWN_STARTING_UNITS);
                    towns += 1
                }
                Space::PlayerCapital { owner, units } => {
                    assert_eq!(units, CAPITAL_STARTING_UNITS);
                    capitals[owner] += 1
                }
                Space::Empty => {}
                other => panic!("unexpected tile {:?}", other),
            }
        }
    }
    assert_eq!(mountains, NUM_MOUNTAINS);
    assert_eq!(towns, NUM_TOWNS);
    assert_eq!(capitals, vec![1, 1, 1]);
}

#[test]
fn generation_for_too_many_players_gives_up() {
    assert_eq!(GameState::new(BOARD_SIZE * BOARD_SIZE + 1).err(), Some(GenerationInfeasible));
}

#[test]
fn agent_address_with_port_only() {
    let ai = Ai::from_arg("8080").unwrap();
    assert_eq!(ai.host(), "localhost");
    assert_eq!(ai.port(), 8080);
    let plus = Ai::from_arg("+81").unwrap();
    assert_eq!(plus.host(), "localhost");
    assert_eq!(plus.port(), 81);
}

#[test]
fn agent_address_with_host_and_port() {
    let ai = Ai::from_arg("example.org:9000").unwrap();
    assert_eq!(ai.host(), "example.org");
    assert_eq!(ai.port(), 9000);
    let bare = Ai::from_arg(":7").unwrap();
    assert_eq!(bare.host(), "");
    assert_eq!(bare.port(), 7);
}

#[test]
fn malformed_agent_addresses() {
    assert_eq!(
        Ai::from_arg("example.org").unwrap_err(),
        "Argument 'example.org' is not properly formatted. Expected 'hostname:port' or 'port'."
    );
    assert!(Ai::from_arg("a:b:3").is_err());
    assert!(Ai::from_arg("host:65536").is_err());
    assert!(Ai::from_arg("host:").is_err());
    assert!(Ai::from_arg("host:-1").is_err());
    assert_eq!(
        Ai::from_arg("70000").unwrap_err(),
        "Argument '70000' is not properly formatted. Expected 'hostname:port' or 'port'."
    );
    assert_eq!(Ai::from_arg("host:65535").unwrap().port(), 65535);
}

#[test]
fn render_draws_rows_top_first() {
    let mut spaces = empty_board();
    spaces[0][0] = Space::PlayerCapital { owner: 0, units: 5 };
    spaces[1][0] = Space::PlayerTown { owner: 0, units: 1 };
    spaces[2][0] = Space::NeutralTown { units: 50 };
    spaces[3][0] = Space::Mountain;
    spaces[0][1] = Space::PlayerEmpty { owner: 1, units: 2 };
    let text = GameState { spaces, turn: 0 }.render();
    let lines: Vec<&str> = text.split('\n').collect();
    assert_eq!(lines.len(), BOARD_SIZE + 1);
    assert_eq!(lines[0], format!("Ppn^{}", " ".repeat(BOARD_SIZE - 4)));
    assert_eq!(lines[1], format!("p{}", " ".repeat(BOARD_SIZE - 1)));
    assert_eq!(lines[BOARD_SIZE], "");
    assert_eq!(text.len(), BOARD_SIZE * (BOARD_SIZE + 1));
}
