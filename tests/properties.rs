use water_sort::game::{Game, Move};
use water_sort::solver::Solver;
use water_sort::text::decimal_text;
use water_sort::tube::Tube;
use water_sort::turn::{play_turn, MoveInput, MoveInputError, TurnOutcome};

fn game_of(tubes: &[&str]) -> Game {
    let mut game = Game::default();
    game.init_tubes(tubes.len());
    for (idx, t) in tubes.iter().enumerate() {
        game.init_tube_contents(idx, t.to_string());
    }
    game
}

fn red_blue(from: usize, to: usize, colour: &str, quantity: usize) -> Move {
    Move {
        tube_from: from,
        tube_to: to,
        colour: colour.to_string(),
        quantity,
    }
}

fn filled(t: &Tube) -> usize {
    t.contents.iter().filter(|c| c.is_some()).count()
}

fn cells(names: &[&str]) -> Vec<Option<String>> {
    names
        .iter()
        .map(|n| if n.is_empty() { None } else { Some(n.to_string()) })
        .collect()
}

#[test]
fn pour_conserves_filled_cells() {
    let mut a = Tube::from_string(String::from("red, red, blue"), 0);
    let mut b = Tube::from_string(String::from("red"), 1);
    let m = red_blue(0, 1, "red", 2);
    assert!(a.is_valid_move_from(&m) && b.is_valid_move_to(&m));
    let before = filled(&a) + filled(&b);
    a.pour_from(&m);
    b.pour_to(&m);
    assert_eq!(filled(&a), 1);
    assert_eq!(filled(&b), 3);
    assert_eq!(filled(&a) + filled(&b), before);
}

#[test]
fn move_to_same_tube_is_illegal() {
    let game = game_of(&["red, red, red", "blue, blue, blue, blue", "", ""]);
    assert!(!game.validate_move(&red_blue(0, 0, "red", 2)));
    assert!(!game.validate_move(&red_blue(1, 1, "blue", 1)));
    assert!(!game.validate_move(&red_blue(2, 2, "red", 1)));
}

#[test]
fn move_to_same_tube_with_room_above_is_legal() {
    let game = game_of(&["red, red, red", "blue, blue, blue, blue", "", ""]);
    assert!(game.validate_move(&red_blue(0, 0, "red", 1)));
}

#[test]
fn block_counts_of_single_tubes() {
    assert_eq!(game_of(&["red,red,red,red", "", "", ""]).get_number_of_blocks(), 1);
    assert_eq!(game_of(&["red,blue,red,blue", "", "", ""]).get_number_of_blocks(), 4);
    assert_eq!(game_of(&["", "", "", ""]).get_number_of_blocks(), 0);
}

#[test]
fn setup_with_full_colours_is_valid() {
    let game = game_of(&["red,red,red,red", "blue,blue,blue,blue", "", ""]);
    assert!(game.validate_setup());
    assert!(game.is_num_of_colours_valid());
    let short = game_of(&["red,red,red,red", "blue,blue,blue", "", ""]);
    assert!(!short.validate_setup());
    let extra = game_of(&["red,red,red,red", "blue,blue,blue,blue", "blue", ""]);
    assert!(!extra.validate_setup());
}

#[test]
fn legal_move_into_empty_tube() {
    let mut game = game_of(&["red, red, blue", "blue, blue, blue", "", "red"]);
    let m = red_blue(0, 2, "red", 2);
    assert!(game.validate_move(&m));
    let log_len = game.moves.len();
    game.make_move(&m);
    assert_eq!(game.tubes[0].contents, cells(&["", "", "", "blue"]));
    assert_eq!(game.tubes[2].contents, cells(&["", "", "red", "red"]));
    assert_eq!(game.moves.len(), log_len + 1);
    let recorded = game.moves.get(&game.current_move).unwrap();
    assert_eq!(recorded.tube_from, 0);
    assert_eq!(recorded.tube_to, 2);
    assert_eq!(recorded.colour, "red");
    assert_eq!(recorded.quantity, 2);
}

#[test]
fn illegal_move_changes_nothing() {
    let mut game = game_of(&["blue, red, blue, red", "red, red", "blue, blue", ""]);
    game.make_move(&red_blue(0, 2, "blue", 1));
    let tubes: Vec<Vec<Option<String>>> = game.tubes.iter().map(|t| t.contents.clone()).collect();
    let current = game.current_move;
    let log = game.get_all_moves_string();
    assert!(!game.validate_move(&red_blue(0, 2, "red", 1)));
    game.make_move(&red_blue(0, 2, "red", 1));
    game.make_move(&red_blue(0, 9, "red", 1));
    let after: Vec<Vec<Option<String>>> = game.tubes.iter().map(|t| t.contents.clone()).collect();
    assert_eq!(after, tubes);
    assert_eq!(game.current_move, current);
    assert_eq!(game.moves.len(), 1);
    assert_eq!(game.get_all_moves_string(), log);
}

#[test]
fn description_round_trip() {
    let t = Tube::from_string(String::from("RED, empty,  Blue ,blue"), 2);
    let d = t.description();
    assert_eq!(d, "red, empty, blue, blue");
    let back = Tube::from_string(d.clone(), 2);
    assert_eq!(back.contents, t.contents);
    assert_eq!(back.description(), d);
    assert_eq!(t.to_text(), "3: (red, empty, blue, blue)");
}

#[test]
fn end_to_end_single_move() {
    let mut game = game_of(&["blue,red,blue,red", "red,red", "blue,blue", ""]);
    let m = red_blue(0, 2, "blue", 1);
    assert!(game.validate_move(&m));
    game.make_move(&m);
    assert_eq!(game.tubes[0].contents, cells(&["", "red", "blue", "red"]));
    assert_eq!(game.tubes[2].contents, cells(&["", "blue", "blue", "blue"]));
    assert_eq!(game.current_move, 1);
    assert_eq!(game.get_all_moves_string(), "1 : (1 -> 3: blue x 1)\n");
}

#[test]
fn long_descriptions_keep_every_token() {
    let t = Tube::from_string(String::from("a, b, c, d, e"), 0);
    assert_eq!(t.contents.len(), 5);
    let vec_tube = Tube::from_string_vec(vec![Some(String::from(" EMPTY ")), Some(String::from(" Red"))], 1);
    assert_eq!(vec_tube.contents, cells(&["", "red"]));
    let blanks = Tube::from_string_vec(vec![Some(String::new()), Some(String::from("  "))], 2);
    assert_eq!(blanks.contents, vec![None, None]);
}

#[test]
fn rendering() {
    assert_eq!(decimal_text(0), "0");
    assert_eq!(decimal_text(120), "120");
    assert_eq!(red_blue(0, 2, "red", 2).to_text(), "1 -> 3: red x 2");
    let mut game = game_of(&["red, red", "red", "", ""]);
    assert_eq!(
        game.to_text(),
        "1: (empty, empty, red, red)\n2: (empty, empty, empty, red)\n3: (empty, empty, empty, empty)\n4: (empty, empty, empty, empty)\n"
    );
    game.make_move(&red_blue(1, 0, "red", 1));
    game.make_move(&red_blue(0, 3, "red", 3));
    assert_eq!(
        game.get_all_moves_string(),
        "1 : (2 -> 1: red x 1)\n2 : (1 -> 4: red x 3)\n"
    );
    assert_eq!(game.print_colour("red"), "Red");
    assert_eq!(game.print_colour("green"), "Empty");
}

#[test]
fn parse_move_inputs() {
    let game = game_of(&["red", "", "", ""]);
    let ok = MoveInput::parse_move(String::from("1 +2 3"), &game).ok().unwrap();
    assert_eq!((ok.tube_from, ok.tube_to, ok.quantity), (1, 2, 3));
    let err = |s: &str| MoveInput::parse_move(s.to_string(), &game).err();
    assert_eq!(err("1 2"), Some(MoveInputError::WrongShape));
    assert_eq!(err("1 2 3 4"), Some(MoveInputError::WrongShape));
    let spaced = MoveInput::parse_move(String::from(" 1 \t 2  3 "), &game).ok().unwrap();
    assert_eq!((spaced.tube_from, spaced.tube_to, spaced.quantity), (1, 2, 3));
    assert_eq!(err("x 2 3"), Some(MoveInputError::FromNotNumber));
    assert_eq!(err("1 - 3"), Some(MoveInputError::ToNotNumber));
    assert_eq!(err("1 2 99999999999"), Some(MoveInputError::QuantityNotNumber));
    assert_eq!(err("0 2 3"), Some(MoveInputError::FromOutOfRange));
    assert_eq!(err("1 5 3"), Some(MoveInputError::ToOutOfRange));
    assert_eq!(err("1 2 5"), Some(MoveInputError::QuantityOutOfRange));
    assert_eq!(err("-2147483648 2 1"), Some(MoveInputError::FromOutOfRange));
    assert_eq!(err("2147483648 2 1"), Some(MoveInputError::FromNotNumber));
    assert_eq!(err("+-1 2 1"), Some(MoveInputError::FromNotNumber));
    assert_eq!(err("1 2 +"), Some(MoveInputError::QuantityNotNumber));
}

#[test]
fn turns_of_play() {
    let mut game = game_of(&["red, red, red, blue", "blue, blue, blue", "red", ""]);
    assert!(matches!(play_turn(&mut game, "  quit "), TurnOutcome::Quit));
    assert!(matches!(play_turn(&mut game, "restart"), TurnOutcome::Quit));
    assert!(matches!(
        play_turn(&mut game, "1 2"),
        TurnOutcome::Unparsed(MoveInputError::WrongShape)
    ));
    assert!(matches!(play_turn(&mut game, "1 2 1"), TurnOutcome::Rejected(_)));
    assert!(matches!(play_turn(&mut game, "4 1 1"), TurnOutcome::Rejected(_)));
    assert_eq!(game.current_move, 0);
    match play_turn(&mut game, "1 3 3") {
        TurnOutcome::Moved(m) => assert_eq!((m.colour.as_str(), m.quantity), ("red", 3)),
        _ => panic!("expected a move"),
    }
    assert!(matches!(play_turn(&mut game, "1 2 1"), TurnOutcome::Solved(_)));
    assert!(game.is_game_complete());
    assert_eq!(game.current_move, 2);
}

#[test]
fn solver_on_solved_and_unsolved_games() {
    let solved = game_of(&["red,red,red,red", "blue,blue,blue,blue", "", ""]);
    let solver = Solver::new(&solved);
    assert_eq!(solver.states.len(), 0);
    assert_eq!(solver.current_block_count, 2);

    let game = game_of(&["red, red", "red, red", "blue, blue, blue, blue", ""]);
    let solver = Solver::new(&game);
    assert_eq!(solver.states.len(), 1);
    let peeked = solver.peek_move(&red_blue(0, 1, "red", 2));
    assert_eq!(peeked.current_move, 1);
    assert_eq!(peeked.tubes[1].contents, cells(&["red", "red", "red", "red"]));
    assert_eq!(solver.current_state.current_move, 0);
    assert_eq!(solver.current_state.tubes[0].contents, cells(&["", "", "red", "red"]));
    let unchanged = solver.peek_move(&red_blue(0, 2, "red", 2));
    assert_eq!(unchanged.current_move, 0);
    for m in solver.get_possible_moves() {
        assert!(game.validate_move(&m));
    }
}

#[test]
fn search_finds_a_solution() {
    let game = game_of(&["red, red, blue, blue", "blue, blue, red, red", "", ""]);
    let solver = Solver::new(&game);
    let moves = solver.solve(1000).expect("a solution");
    let mut replayed = game.clone();
    for m in moves.iter() {
        assert!(replayed.validate_move(m));
        replayed.make_move(m);
    }
    assert!(replayed.is_game_complete());
    assert!(!moves.is_empty());
}

#[test]
fn search_on_solved_game_and_without_budget() {
    let solved = game_of(&["red,red,red,red", "blue,blue,blue,blue", "", ""]);
    assert_eq!(Solver::new(&solved).solve(0).map(|m| m.len()), Some(0));
    let game = game_of(&["red, red, blue, blue", "blue, blue, red, red", "", ""]);
    assert!(Solver::new(&game).solve(0).is_none());
}

fn colour_count(game: &Game, colour: &str) -> usize {
    game.tubes
        .iter()
        .map(|t| t.contents.iter().filter(|c| c.as_deref() == Some(colour)).count())
        .sum()
}

#[test]
fn moves_conserve_each_colour() {
    let mut game = game_of(&["blue, red, blue, red", "red, red", "blue, blue", ""]);
    let before = (colour_count(&game, "red"), colour_count(&game, "blue"));
    game.make_move(&red_blue(0, 2, "blue", 1));
    game.make_move(&red_blue(1, 3, "red", 2));
    game.make_move(&red_blue(0, 1, "blue", 1));
    assert_eq!(game.current_move, 2);
    assert_eq!((colour_count(&game, "red"), colour_count(&game, "blue")), before);
}
