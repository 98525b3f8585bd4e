use std::collections::HashSet;

use water_sort::game::{Game, Move};
use water_sort::solver::Solver;
use water_sort::tube::Tube;

fn initialise_game(tube_strings: Vec<String>, num_of_tubes: usize) -> Game {
    let mut game = Game::default();
    game.init_tubes(num_of_tubes);
    for (idx, tube_string) in tube_strings.into_iter().enumerate() {
        game.init_tube_contents(idx, tube_string);
    }
    game
}

fn solver_tubes_match(result: &[Tube], expected: &[Tube]) {
    assert_eq!(
        result.len(),
        expected.len(),
        "different number of tubes. Expected = {}, got = {}",
        result.len(),
        expected.len()
    );
    for (idx, expected_tube) in expected.iter().enumerate() {
        assert_eq!(result[idx].contents, expected_tube.contents);
        assert_eq!(result[idx].tube_number, expected_tube.tube_number);
    }
}

fn solver_move_matches(test_result: &Move, expected: &Move) {
    assert_eq!(test_result.tube_from, expected.tube_from);
    assert_eq!(test_result.tube_to, expected.tube_to);
    assert_eq!(test_result.colour, expected.colour);
    assert_eq!(test_result.quantity, expected.quantity);
}

fn pour(tube_from: usize, tube_to: usize, colour: &str, quantity: usize) -> Move {
    Move {
        tube_from,
        tube_to,
        colour: String::from(colour),
        quantity,
    }
}

#[test]
fn test_get_number_of_blocks() {
    let num_of_tubes = 4;
    let tests: Vec<(Vec<String>, usize)> = vec![
        (
            vec![
                String::from("red,blue,red,blue"),
                String::from("blue,red,blue,red"),
            ],
            8,
        ),
        (
            vec![
                String::from("red,red,red,red"),
                String::from("blue,blue,blue,blue"),
            ],
            2,
        ),
        (
            vec![
                String::from("red, red"),
                String::from("blue, blue"),
                String::from("red, blue, blue"),
                String::from("red"),
            ],
            5,
        ),
        (vec![String::from("")], 0),
    ];

    for test in tests {
        let game = initialise_game(test.0, num_of_tubes);
        let num_of_blocks = game.get_number_of_blocks();
        assert_eq!(
            num_of_blocks, test.1,
            "incorrect number of blocks returned. Expected: {}, got: {}",
            test.1, num_of_blocks
        );
    }
}

#[test]
fn test_solver_init() {
    let num_of_tubes = 4;
    let tests: Vec<(Vec<String>, usize, Vec<Tube>, HashSet<String>)> = vec![
        (
            vec![
                String::from("red,red,blue,blue"),
                String::from("blue,blue,red,red"),
            ],
            2,
            vec![
                Tube::from_string(String::from("red,red,blue,blue"), 0),
                Tube::from_string(String::from("blue,blue,red,red"), 1),
                Tube::from_string_vec(vec![None; 4], 2),
                Tube::from_string_vec(vec![None; 4], 3),
            ],
            HashSet::from(["red".to_string(), "blue".to_string()]),
        ),
        (
            vec![
                String::from("red, blue, green"),
                String::from("red, blue, green"),
            ],
            4,
            vec![
                Tube::from_string(String::from("red, blue, green"), 0),
                Tube::from_string(String::from("red, blue, green"), 1),
                Tube::from_string_vec(vec![None; 4], 2),
                Tube::from_string_vec(vec![None; 4], 3),
            ],
            HashSet::from([
                "red".to_string(),
                "blue".to_string(),
                "green".to_string(),
            ]),
        ),
    ];
    for test in tests {
        let game = initialise_game(test.0, num_of_tubes);
        let solver = Solver::new(&game);
        assert_eq!(
            solver.states.len(),
            test.1,
            "solver has incorrect size in x direction. Expected: {}, got: {}",
            test.1,
            solver.states.len()
        );
        for (idx, state) in solver.states.iter().enumerate() {
            if idx == 0 {
                assert_eq!(state.len(), 1, "solver states for x = {} has incorrect size in y direction. Expected: 1, got: {}", idx, state.len());
                let state_0_0 = &state[idx];
                solver_tubes_match(&state_0_0.tubes, &test.2);
                assert_eq!(
                    state_0_0.current_move, 0,
                    "current move wrong value. Expected = {}, got = {}",
                    0, state_0_0.current_move
                );
                assert!(state_0_0.moves.is_empty(), "moves are not empty");
                let colours: HashSet<String> = state_0_0.colours.iter().cloned().collect();
                assert_eq!(
                    colours, test.3,
                    "Colours hashset is not the same. Expected = {:?}, got = {:?}",
                    test.3, colours
                );
            } else {
                assert_eq!(state.len(), 0, "solver states for x = {} has incorrect size in y direction. Expected: 0, got: {}", idx, state.len());
            }
        }
    }
}

#[test]
fn test_get_possible_moves() {
    let num_of_tubes = 4;
    let tests: Vec<(Vec<String>, Vec<Move>)> = vec![
        (
            vec![
                String::from("red, red, red"),
                String::from("blue, blue, blue, blue"),
                String::from("red"),
            ],
            vec![pour(0, 2, "red", 3), pour(2, 0, "red", 1)],
        ),
        (
            vec![
                String::from("red, red, red"),
                String::from("blue, blue, blue, blue"),
            ],
            Vec::new(),
        ),
        (
            vec![
                String::from("red, red"),
                String::from("blue, blue, blue"),
                String::from("red, red"),
                String::from("blue"),
            ],
            vec![
                pour(0, 2, "red", 2),
                pour(2, 0, "red", 2),
                pour(1, 3, "blue", 3),
                pour(3, 1, "blue", 1),
            ],
        ),
        (
            vec![
                String::from("red, red, red"),
                String::from("red, blue, blue"),
                String::from("blue, blue"),
            ],
            vec![pour(0, 1, "red", 1), pour(1, 0, "red", 1), pour(1, 3, "red", 1)],
        ),
    ];
    for test in tests {
        let game = initialise_game(test.0, num_of_tubes);
        let solver = Solver::new(&game);
        let possible_moves = solver.get_possible_moves();
        assert_eq!(
            possible_moves.len(),
            test.1.len(),
            "possible moves wrong length. Expected: {}, got: {}",
            test.1.len(),
            possible_moves.len()
        );
        for expected_move in test.1.iter() {
            let mut found = false;
            for possible_move in possible_moves.iter() {
                if possible_move.tube_from == expected_move.tube_from
                    && possible_move.tube_to == expected_move.tube_to
                {
                    solver_move_matches(possible_move, expected_move);
                    found = true;
                    break;
                }
            }
            if !found {
                panic!("expected move cannot be found: {}", expected_move.to_text());
            }
        }
    }
}

#[test]
fn test_does_move_reduce_block_count() {
    let num_of_tubes = 4;
    let tests: Vec<(Vec<String>, Move, bool)> = vec![
        (
            vec![
                String::from("red, red"),
                String::from("red, red"),
                String::from("blue, blue, blue, blue"),
            ],
            pour(0, 1, "red", 2),
            true,
        ),
        (
            vec![
                String::from("red, red, red"),
                String::from("red, blue"),
                String::from("blue, blue, blue"),
            ],
            pour(0, 1, "red", 1),
            false,
        ),
        (
            vec![
                String::from("red, red, red"),
                String::from("red, blue"),
                String::from("blue, blue, blue"),
            ],
            pour(1, 0, "red", 1),
            true,
        ),
        (
            vec![
                String::from("red, red"),
                String::from("red, red"),
                String::from("blue, blue, blue, blue"),
            ],
            pour(0, 3, "red", 2),
            false,
        ),
    ];
    for test in tests {
        let game = initialise_game(test.0, num_of_tubes);
        let solver = Solver::new(&game);
        let result = solver.does_move_reduce_block_count(&test.1);
        assert_eq!(result, test.2, "does move reduce block count gives incorrect return value. Expected: {}, got: {} for move: {}", test.2, result, test.1.to_text());
    }
}
