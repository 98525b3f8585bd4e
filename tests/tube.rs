use water_sort::game::Move;
use water_sort::tube::{ColourPos, Tube};

fn check_tube(test_result: &Tube, expected: &Tube) {
    assert_eq!(
        test_result.contents,
        expected.contents,
        "tube contents are not the same. Expected = {}, got = {}",
        expected.to_text(),
        test_result.to_text()
    );
    assert_eq!(
        test_result.tube_number, expected.tube_number,
        "tube number not the same. Expected = {}, got = {}",
        expected.tube_number, test_result.tube_number
    );
}

fn mv(tube_from: usize, tube_to: usize, colour: &str, quantity: usize) -> Move {
    Move {
        tube_from,
        tube_to,
        colour: colour.to_string(),
        quantity,
    }
}

fn some(s: &str) -> Option<String> {
    Some(s.to_string())
}

#[test]
fn test_string_setup() {
    let string_tests = vec![
        (
            String::from("red, red, blue, green"),
            Tube {
                contents: vec![some("red"), some("red"), some("blue"), some("green")],
                tube_number: 1,
            },
        ),
        (
            String::from("empty, red, blue, green"),
            Tube {
                contents: vec![None, some("red"), some("blue"), some("green")],
                tube_number: 2,
            },
        ),
        (
            String::from("red, blue, green"),
            Tube {
                contents: vec![None, some("red"), some("blue"), some("green")],
                tube_number: 3,
            },
        ),
        (
            String::from("blue, green"),
            Tube {
                contents: vec![None, None, some("blue"), some("green")],
                tube_number: 4,
            },
        ),
        (
            String::from("RED, rEd, Blue    ,    Green      "),
            Tube {
                contents: vec![some("red"), some("red"), some("blue"), some("green")],
                tube_number: 5,
            },
        ),
        (
            String::from(""),
            Tube {
                contents: vec![None; 4],
                tube_number: 6,
            },
        ),
        (
            String::from("         ,      ,   ,"),
            Tube {
                contents: vec![None; 4],
                tube_number: 7,
            },
        ),
    ];

    for (idx, test) in string_tests.into_iter().enumerate() {
        let result = Tube::from_string(test.0, idx + 1);
        check_tube(&result, &test.1);
    }
}

#[test]
fn test_colour_vec_setup() {
    let tests = vec![
        (
            vec![some("red"), some("green"), some("blue"), some("purple")],
            Tube {
                contents: vec![some("red"), some("green"), some("blue"), some("purple")],
                tube_number: 1,
            },
        ),
        (
            vec![None, None, some("blue"), some("purple")],
            Tube {
                contents: vec![None, None, some("blue"), some("purple")],
                tube_number: 2,
            },
        ),
        (
            vec![None, None, None, None],
            Tube {
                contents: vec![None, None, None, None],
                tube_number: 3,
            },
        ),
    ];
    for (idx, test) in tests.into_iter().enumerate() {
        let result = Tube::from_string_vec(test.0, idx + 1);
        check_tube(&result, &test.1);
    }
}

#[test]
fn test_top_colour() {
    let tests = vec![
        (
            Tube::from_string(String::from("red, red, blue, green"), 1),
            Some(ColourPos {
                colour: "red".to_string(),
                pos: 0,
                block_size: 2,
            }),
        ),
        (
            Tube::from_string(String::from("empty, red, blue, green"), 2),
            Some(ColourPos {
                colour: "red".to_string(),
                pos: 1,
                block_size: 1,
            }),
        ),
        (
            Tube::from_string(String::from("red, blue, green"), 3),
            Some(ColourPos {
                colour: "red".to_string(),
                pos: 1,
                block_size: 1,
            }),
        ),
        (Tube::from_string(String::from(""), 4), None),
    ];
    for test in tests {
        let result = test.0.get_top_colour();
        match result {
            Some(col_pos) => {
                assert!(
                    test.1.is_some(),
                    "expected a None result, but got {}: {}",
                    col_pos.pos,
                    col_pos.colour
                );
                let expected = test.1.unwrap();
                assert_eq!(
                    col_pos.colour, expected.colour,
                    "colours of ColourPos do not match. Expected = {}, got = {}",
                    expected.colour, col_pos.colour
                );
                assert_eq!(
                    col_pos.pos, expected.pos,
                    "position of ColourPos does not match. Expected = {}, got = {}",
                    expected.pos, col_pos.pos
                );
                assert_eq!(
                    col_pos.block_size, expected.block_size,
                    "block_size of ColourPos does not match. Expected = {}, got = {}",
                    expected.block_size, col_pos.block_size
                );
            }
            None => {
                assert!(
                    test.1.is_none(),
                    "got None ColourPos result for tube {}",
                    test.0.tube_number
                );
            }
        }
    }
}

#[test]
fn test_pour_from() {
    let tests = vec![
        (
            String::from("red, purple, blue, green"),
            mv(0, 1, "red", 1),
            Tube::from_string(String::from("purple, blue, green"), 0),
        ),
        (
            String::from("red, red, blue, green"),
            mv(0, 1, "red", 1),
            Tube::from_string(String::from("red, blue, green"), 1),
        ),
        (
            String::from("red, red, blue, green"),
            mv(0, 1, "red", 2),
            Tube::from_string(String::from("blue, green"), 2),
        ),
        (
            String::from("red, red, red"),
            mv(0, 1, "red", 3),
            Tube::from_string(String::from(""), 3),
        ),
        (
            String::from("red, red, blue"),
            mv(0, 1, "red", 2),
            Tube::from_string(String::from("empty, empty, empty, blue"), 4),
        ),
    ];

    for (idx, test) in tests.iter().enumerate() {
        let mut result = Tube::from_string(test.0.to_owned(), idx);
        result.pour_from(&test.1);
        check_tube(&result, &test.2);
    }
}

#[test]
fn test_pour_to() {
    let tests = vec![
        (
            String::from(""),
            mv(1, 0, "red", 1),
            Tube::from_string(String::from("empty, empty, empty, red"), 0),
        ),
        (
            String::from("red"),
            mv(1, 0, "red", 1),
            Tube::from_string(String::from("empty, empty, red, red"), 1),
        ),
        (
            String::from("blue, red"),
            mv(1, 0, "red", 1),
            Tube::from_string(String::from("empty, red, blue, red"), 2),
        ),
        (
            String::from("blue, red"),
            mv(1, 0, "red", 2),
            Tube::from_string(String::from("red, red, blue, red"), 3),
        ),
    ];

    for (idx, test) in tests.iter().enumerate() {
        let mut result = Tube::from_string(test.0.to_owned(), idx);
        result.pour_to(&test.1);
        check_tube(&result, &test.2);
    }
}

#[test]
fn test_validate_move_from() {
    let tests = vec![
        (String::from("red"), mv(0, 1, "red", 1), true),
        (String::from("blue"), mv(0, 1, "red", 1), false),
        (String::from("red"), mv(0, 1, "red", 2), false),
        (String::from("red, red, red"), mv(0, 1, "red", 1), true),
        (String::from("red, red, red, red"), mv(0, 1, "red", 1), true),
        (String::from("red, red, red, red"), mv(0, 1, "red", 4), true),
    ];

    for test in tests {
        let tube = Tube::from_string(test.0, 0);
        let result = tube.is_valid_move_from(&test.1);
        assert_eq!(
            result,
            test.2,
            "validate_move_from wrong result for {} from tube {}. Expected = {}, got = {}",
            test.1.to_text(),
            tube.to_text(),
            test.2,
            result
        );
    }
}

#[test]
fn test_validate_move_to() {
    let tests = vec![
        (String::from("red"), mv(1, 0, "red", 1), true),
        (String::from("blue"), mv(1, 0, "red", 1), false),
        (String::from("red"), mv(1, 0, "red", 2), true),
        (String::from("red"), mv(1, 0, "red", 3), true),
        (String::from("red"), mv(1, 0, "red", 4), false),
        (String::from(""), mv(1, 0, "red", 1), true),
        (String::from("red, red, red, red"), mv(1, 0, "red", 1), false),
        (String::from("red, red, red, red"), mv(1, 0, "red", 4), false),
        (String::from("red, red, red"), mv(1, 0, "red", 2), false),
        (String::from("blue, red, red"), mv(1, 0, "red", 1), false),
    ];

    for test in tests {
        let tube = Tube::from_string(test.0, 0);
        let result = tube.is_valid_move_to(&test.1);
        assert_eq!(
            result,
            test.2,
            "validate_move_to wrong result for {} from tube {}. Expected = {}, got = {}",
            test.1.to_text(),
            tube.to_text(),
            test.2,
            result
        );
    }
}
