//! One turn of play from a line of text: `"<from> <to> <quantity>"` with
//! tubes counted from 1, or a command that ends play.
use vstd::prelude::*;

use crate::game::{Game, GameView, Move, MoveView};
use crate::text::{trim_spec, trim_text, words, words_spec};
use crate::TUBE_SIZE;

verus! {

/// The character is an ASCII decimal digit.
pub open spec fn is_digit(c: char) -> bool {
    48 <= c as u32 <= 57
}

/// The value of a string of decimal digits.
pub open spec fn digits_value(s: Seq<char>) -> int
    decreases s.len(),
{
    if s.len() == 0 {
        0
    } else {
        digits_value(s.drop_last()) * 10 + (s.last() as u32 - 48)
    }
}

/// Every character is an ASCII decimal digit.
pub open spec fn all_digits(b: Seq<char>) -> bool {
    forall|i: int| 0 <= i < b.len() ==> is_digit(#[trigger] b[i])
}

/// `s` without a leading `+` or `-`.
pub open spec fn unsigned_part(s: Seq<char>) -> Seq<char> {
    if s.len() > 0 && (s[0] == '-' || s[0] == '+') {
        s.drop_first()
    } else {
        s
    }
}

/// The integer that `s` writes: an optional `+` or `-`, then one or more
/// decimal digits.
pub open spec fn int_value(s: Seq<char>) -> Option<int> {
    let body = unsigned_part(s);
    if body.len() > 0 && all_digits(body) {
        Some(
            if s.len() > 0 && s[0] == '-' {
                -digits_value(body)
            } else {
                digits_value(body)
            },
        )
    } else {
        None
    }
}

/// The `i32` that `s` writes, if it writes one in range.
pub open spec fn i32_value(s: Seq<char>) -> Option<i32> {
    match int_value(s) {
        Some(v) => if i32::MIN <= v <= i32::MAX {
            Some(v as i32)
        } else {
            None
        },
        None => None,
    }
}

pub proof fn lemma_digits_value_nonneg(b: Seq<char>)
    requires
        all_digits(b),
    ensures
        digits_value(b) >= 0,
    decreases b.len(),
{
    if b.len() > 0 {
        lemma_digits_value_nonneg(b.drop_last());
        assert(is_digit(b[b.len() - 1]));
    }
}

/// Appending digits never lowers the value.
pub proof fn lemma_digits_value_grows(b: Seq<char>, k: int)
    requires
        0 <= k <= b.len(),
        all_digits(b),
    ensures
        digits_value(b.subrange(0, k)) <= digits_value(b),
    decreases b.len(),
{
    if k == b.len() {
        assert(b.subrange(0, k) =~= b);
    } else {
        let d = b.drop_last();
        assert(d.subrange(0, k) =~= b.subrange(0, k));
        lemma_digits_value_grows(d, k);
        lemma_digits_value_nonneg(d);
        assert(is_digit(b[b.len() - 1]));
    }
}

/// Reads an `i32` written as an optional `+` or `-` and one or more decimal
/// digits (as `str::parse::<i32>`); `None` for anything else or a value out
/// of range.
pub fn parse_i32(s: &str) -> (r: Option<i32>)
    ensures
        r == i32_value(s@),
{
    let n = s.unicode_len();
    if n == 0 {
        return None;
    }
    let c0 = s.get_char(0);
    let neg = c0 == '-';
    let start: usize = if c0 == '-' || c0 == '+' {
        1
    } else {
        0
    };
    let ghost body = if c0 == '-' || c0 == '+' {
        s@.drop_first()
    } else {
        s@
    };
    proof {
        assert(s@[0] == c0);
        assert(body == unsigned_part(s@));
        assert(body =~= s@.subrange(start as int, n as int));
        assert(s@.len() > 0 && (s@[0] == '-' || s@[0] == '+') <==> start == 1);
        assert(neg == (s@.len() > 0 && s@[0] == '-'));
    }
    if start == n {
        return None;
    }
    let mut acc: i64 = 0;
    let mut i: usize = start;
    while i < n
        invariant
            n == s@.len(),
            body == s@.subrange(start as int, n as int),
            body == unsigned_part(s@),
            neg == (s@.len() > 0 && s@[0] == '-'),
            start < n,
            start <= i <= n,
            forall|j: int| start <= j < i ==> is_digit(#[trigger] s@[j]),
            acc == digits_value(s@.subrange(start as int, i as int)),
            0 <= acc <= 2147483648,
        decreases n - i,
    {
        let c = s.get_char(i);
        let u = c as u32;
        if u < 48 || u > 57 {
            proof {
                assert(body[i - start] == c);
                assert(!is_digit(body[i - start]));
                assert(!all_digits(body));
                assert(int_value(s@) is None);
            }
            return None;
        }
        proof {
            let p = s@.subrange(start as int, i + 1);
            assert(p.drop_last() =~= s@.subrange(start as int, i as int));
            assert(p.last() == c);
        }
        acc = acc * 10 + (u - 48) as i64;
        i = i + 1;
        if acc > 2147483648 {
            proof {
                if all_digits(body) {
                    assert(body.subrange(0, i - start) =~= s@.subrange(start as int, i as int));
                    lemma_digits_value_grows(body, i - start);
                    let v = digits_value(body);
                    assert(v > 2147483648);
                    assert(int_value(s@) == Some(if neg { -v } else { v }));
                } else {
                    assert(int_value(s@) is None);
                }
            }
            return None;
        }
    }
    proof {
        assert(s@.subrange(start as int, i as int) == body);
        assert forall|j: int| 0 <= j < body.len() implies is_digit(#[trigger] body[j]) by {
            assert(body[j] == s@[start + j]);
        }
        assert(all_digits(body));
        assert(int_value(s@) == Some(if neg { -acc as int } else { acc as int }));
    }
    if neg {
        Some((0 - acc) as i32)
    } else if acc <= 2147483647 {
        Some(acc as i32)
    } else {
        None
    }
}

/// Why a line does not give a move.
#[derive(Debug, Clone, Copy, PartialEq, Eq)]
pub enum MoveInputError {
    /// Not three words separated by white space.
    WrongShape,
    /// The source tube is not an integer.
    FromNotNumber,
    /// The destination tube is not an integer.
    ToNotNumber,
    /// The quantity is not an integer.
    QuantityNotNumber,
    /// The source tube is not one of the game's.
    FromOutOfRange,
    /// The destination tube is not one of the game's.
    ToOutOfRange,
    /// The quantity is not between 1 and `TUBE_SIZE`.
    QuantityOutOfRange,
}

/// A move as typed: tubes counted from 1, and a quantity.
pub struct MoveInput {
    pub tube_from: i32,
    pub tube_to: i32,
    pub quantity: i32,
}

/// What a line gives in a game of `n` tubes.
pub open spec fn parse_move_spec(s: Seq<char>, n: nat) -> Result<MoveInput, MoveInputError> {
    let parts = words_spec(s);
    if parts.len() != 3 {
        Err(MoveInputError::WrongShape)
    } else if i32_value(parts[0]) is None {
        Err(MoveInputError::FromNotNumber)
    } else if i32_value(parts[1]) is None {
        Err(MoveInputError::ToNotNumber)
    } else if i32_value(parts[2]) is None {
        Err(MoveInputError::QuantityNotNumber)
    } else {
        let f = i32_value(parts[0])->0;
        let t = i32_value(parts[1])->0;
        let q = i32_value(parts[2])->0;
        if f < 1 || f > n {
            Err(MoveInputError::FromOutOfRange)
        } else if t < 1 || t > n {
            Err(MoveInputError::ToOutOfRange)
        } else if q < 1 || q > TUBE_SIZE {
            Err(MoveInputError::QuantityOutOfRange)
        } else {
            Ok(MoveInput { tube_from: f, tube_to: t, quantity: q })
        }
    }
}

/// The move that `mi` stands for in `g`: the colour is the source's top
/// colour, or no colour at all when the source is empty.
pub open spec fn intended(mi: MoveInput, g: GameView) -> MoveView {
    let from = (mi.tube_from - 1) as usize;
    MoveView {
        from,
        to: (mi.tube_to - 1) as usize,
        colour: if g.tubes[from as int].has_top() {
            g.tubes[from as int].top_colour()
        } else {
            Seq::empty()
        },
        quantity: mi.quantity as usize,
    }
}

impl MoveInput {
    /// Reads `"<from> <to> <quantity>"`, three integers separated by white
    /// space, and checks that both tubes are in the game and the quantity
    /// is between 1 and `TUBE_SIZE`.
    pub fn parse_move(move_string: String, game: &Game) -> (r: Result<MoveInput, MoveInputError>)
        ensures
            r == parse_move_spec(move_string@, game@.tubes.len()),
    {
        let string_parts = words(move_string.as_str());
        if string_parts.len() != 3 {
            return Err(MoveInputError::WrongShape);
        }
        let tube_from = match parse_i32(string_parts[0].as_str()) {
            Some(entry) => entry,
            None => return Err(MoveInputError::FromNotNumber),
        };
        let tube_to = match parse_i32(string_parts[1].as_str()) {
            Some(entry) => entry,
            None => return Err(MoveInputError::ToNotNumber),
        };
        let quantity = match parse_i32(string_parts[2].as_str()) {
            Some(entry) => entry,
            None => return Err(MoveInputError::QuantityNotNumber),
        };
        let n = game.tubes.len();
        if tube_from < 1 || tube_from as usize > n {
            return Err(MoveInputError::FromOutOfRange);
        }
        if tube_to < 1 || tube_to as usize > n {
            return Err(MoveInputError::ToOutOfRange);
        }
        if quantity < 1 || quantity as usize > TUBE_SIZE {
            return Err(MoveInputError::QuantityOutOfRange);
        }
        Ok(MoveInput { tube_from, tube_to, quantity })
    }
}

/// What a turn came to.
pub enum TurnOutcome {
    /// The line asked to end play.
    Quit,
    /// The line does not give a move.
    Unparsed(MoveInputError),
    /// The move is not legal; the game is unchanged.
    Rejected(Move),
    /// The move was applied and the puzzle is not solved yet.
    Moved(Move),
    /// The move was applied and solved the puzzle.
    Solved(Move),
}

/// Plays one line of input: `restart` or `quit` ends play; otherwise the
/// line is read as a move, which is applied when it is legal.
pub fn play_turn(game: &mut Game, line: &str) -> (r: TurnOutcome)
    requires
        old(game)@.wf(),
        old(game).current_move < usize::MAX,
    ensures
        final(game)@.wf(),
        ({
            let t = trim_spec(line@);
            if t == "restart"@ || t == "quit"@ {
                r is Quit && *final(game) == *old(game)
            } else {
                match parse_move_spec(t, old(game)@.tubes.len()) {
                    Err(e) => r == TurnOutcome::Unparsed(e) && *final(game) == *old(game),
                    Ok(mi) => match r {
                        TurnOutcome::Rejected(m) => m@ == intended(mi, old(game)@)
                            && !old(game)@.is_legal(m) && *final(game) == *old(game),
                        TurnOutcome::Moved(m) => m@ == intended(mi, old(game)@) && old(
                            game,
                        )@.is_legal(m) && final(game)@ == old(game)@.applied(m)
                            && !final(game)@.is_solved(),
                        TurnOutcome::Solved(m) => m@ == intended(mi, old(game)@) && old(
                            game,
                        )@.is_legal(m) && final(game)@ == old(game)@.applied(m)
                            && final(game)@.is_solved(),
                        _ => false,
                    },
                }
            }
        }),
{
    let input = trim_text(line);
    let restart = "restart".to_owned();
    let quit = "quit".to_owned();
    let input = input.to_owned();
    if crate::tube::same_text(&input, &restart) || crate::tube::same_text(&input, &quit) {
        return TurnOutcome::Quit;
    }
    let move_input = match MoveInput::parse_move(input, game) {
        Err(err) => return TurnOutcome::Unparsed(err),
        Ok(move_in) => move_in,
    };
    let from = (move_input.tube_from - 1) as usize;
    let from_colour = match game.tubes[from].get_top_colour() {
        Some(col) => col.colour,
        None => String::new(),
    };
    proof {
        assert(game@.tubes[from as int] == game.tubes@[from as int]@);
    }
    let this_move = Move {
        tube_from: from,
        tube_to: (move_input.tube_to - 1) as usize,
        quantity: move_input.quantity as usize,
        colour: from_colour,
    };
    if game.validate_move(&this_move) {
        game.make_move(&this_move);
        if game.is_game_complete() {
            TurnOutcome::Solved(this_move)
        } else {
            TurnOutcome::Moved(this_move)
        }
    } else {
        TurnOutcome::Rejected(this_move)
    }
}

} // verus!
