//! The solver: the moves worth trying from a state, whether a move brings the
//! state closer to solved, the buckets of states ordered by the block
//! reductions still needed, and a bounded search for a solving sequence.
use vstd::prelude::*;

use crate::game::{game_blocks, Game, GameView, Move, MoveView};
use crate::tube::{lemma_first_filled, lemma_run_from, same_cell, same_text, Tube, TubeView};
use crate::TUBE_SIZE;

verus! {

/// The number of buckets for a state: the blocks above one per colour tube,
/// or none when there are no more blocks than colour tubes.
pub open spec fn bucket_count(g: GameView) -> nat {
    if game_blocks(g.tubes) + 2 <= g.tubes.len() {
        0
    } else {
        (game_blocks(g.tubes) + 2 - g.tubes.len()) as nat
    }
}

/// The move proposed from tube `f` to tube `t`, if any. The source must have
/// a top segment. Into an empty tube the whole segment goes, unless it
/// already rests alone at the bottom of its tube; onto a top segment of the
/// same colour as much goes as there is room for.
pub open spec fn proposal(tubes: Seq<TubeView>, f: int, t: int) -> Option<MoveView> {
    let a = tubes[f];
    let b = tubes[t];
    if f == t || !a.has_top() {
        None
    } else if !b.has_top() {
        if TUBE_SIZE - a.top_block() == a.top_pos() {
            None
        } else {
            Some(
                MoveView {
                    from: f as usize,
                    to: t as usize,
                    colour: a.top_colour(),
                    quantity: a.top_block() as usize,
                },
            )
        }
    } else if b.top_colour() == a.top_colour() {
        Some(
            MoveView {
                from: f as usize,
                to: t as usize,
                colour: a.top_colour(),
                quantity: if a.top_block() <= b.top_pos() {
                    a.top_block() as usize
                } else {
                    b.top_pos() as usize
                },
            },
        )
    } else {
        None
    }
}

pub open spec fn opt_seq(o: Option<MoveView>) -> Seq<MoveView> {
    match o {
        Some(m) => seq![m],
        None => Seq::empty(),
    }
}

/// The moves proposed from tube `f` to the first `n` tubes, in order.
pub open spec fn row_moves(tubes: Seq<TubeView>, f: int, n: int) -> Seq<MoveView>
    decreases n,
{
    if n <= 0 {
        Seq::empty()
    } else {
        row_moves(tubes, f, n - 1).add(opt_seq(proposal(tubes, f, n - 1)))
    }
}

/// The moves proposed from the first `n` tubes, by source and then by
/// destination.
pub open spec fn moves_upto(tubes: Seq<TubeView>, n: int) -> Seq<MoveView>
    decreases n,
{
    if n <= 0 {
        Seq::empty()
    } else {
        moves_upto(tubes, n - 1).add(row_moves(tubes, n - 1, tubes.len() as int))
    }
}

/// All moves proposed in a state.
pub open spec fn possible_moves(tubes: Seq<TubeView>) -> Seq<MoveView> {
    moves_upto(tubes, tubes.len() as int)
}

/// The state after trying `m`: applied when legal, unchanged otherwise.
pub open spec fn peeked(g: GameView, m: Move) -> GameView {
    if g.is_legal(m) {
        g.applied(m)
    } else {
        g
    }
}

/// A move whose view is a proposal of a well-formed state is legal there.
pub proof fn lemma_proposal_legal(g: GameView, f: int, t: int, m: Move)
    requires
        g.wf(),
        0 <= f < g.tubes.len(),
        0 <= t < g.tubes.len(),
        proposal(g.tubes, f, t) == Some(m@),
    ensures
        g.is_legal(m),
{
    let a = g.tubes[f];
    let b = g.tubes[t];
    lemma_first_filled(a.cells);
    lemma_first_filled(b.cells);
    lemma_run_from(a.cells, a.top_pos() as int, a.top_colour());
    assert(a.cells.len() == TUBE_SIZE && b.cells.len() == TUBE_SIZE);
    assert(a.number == f && b.number == t);
    assert(m.colour@ == a.top_colour());
    assert forall|i: int|
        a.top_pos() <= i < a.top_pos() + m.quantity implies i < a.cells.len()
            && #[trigger] a.cells[i] == Some(m.colour@) by {}
}

/// The moves proposed in `game` (see `proposal`), by source tube and then by
/// destination tube. Each of them is legal.
fn moves_from(game: &Game) -> (r: Vec<Move>)
    requires
        game@.wf(),
    ensures
        r@.map_values(|m: Move| m@) == possible_moves(game@.tubes),
        forall|i: int| 0 <= i < r@.len() ==> game@.is_legal(#[trigger] r@[i]),
{
    let ghost g = game@;
    let ghost tubes = g.tubes;
    let n = game.tubes.len();
    let mut moves: Vec<Move> = Vec::new();
    let mut from_idx: usize = 0;
    while from_idx < n
        invariant
            game@.wf(),
            g == game@,
            tubes == g.tubes,
            n == tubes.len(),
            from_idx <= n,
            moves@.map_values(|m: Move| m@) == moves_upto(tubes, from_idx as int),
            forall|i: int| 0 <= i < moves@.len() ==> g.is_legal(#[trigger] moves@[i]),
        decreases n - from_idx,
    {
        let from_tube = &game.tubes[from_idx];
        proof {
            assert(tubes[from_idx as int] == from_tube@);
        }
        let from_top_colour = from_tube.get_top_colour();
        let ghost base = moves_upto(tubes, from_idx as int);
        let mut to_idx: usize = 0;
        while to_idx < n
            invariant
                game@.wf(),
                g == game@,
                tubes == g.tubes,
                n == tubes.len(),
                from_idx < n,
                to_idx <= n,
                tubes[from_idx as int] == from_tube@,
                base == moves_upto(tubes, from_idx as int),
                match from_top_colour {
                    None => !from_tube@.has_top(),
                    Some(cp) => {
                        &&& from_tube@.has_top()
                        &&& cp.pos == from_tube@.top_pos()
                        &&& cp.colour@ == from_tube@.top_colour()
                        &&& cp.block_size == from_tube@.top_block()
                    },
                },
                moves@.map_values(|m: Move| m@) == base.add(
                    row_moves(tubes, from_idx as int, to_idx as int),
                ),
                forall|i: int| 0 <= i < moves@.len() ==> g.is_legal(#[trigger] moves@[i]),
            decreases n - to_idx,
        {
            let ghost before = moves@;
            let to_tube = &game.tubes[to_idx];
            proof {
                assert(tubes[to_idx as int] == to_tube@);
            }
            let ghost prop = proposal(tubes, from_idx as int, to_idx as int);
            let mut proposed: Option<Move> = None;
            match &from_top_colour {
                None => {},
                Some(from_top) => {
                    if from_idx != to_idx {
                        let to_top_colour = to_tube.get_top_colour();
                        proof {
                            lemma_first_filled(from_tube@.cells);
                            lemma_run_from(
                                from_tube@.cells,
                                from_tube@.top_pos() as int,
                                from_tube@.top_colour(),
                            );
                            assert(from_tube@.cells.len() == TUBE_SIZE);
                        }
                        match to_top_colour {
                            None => {
                                if TUBE_SIZE - from_top.block_size != from_top.pos {
                                    proposed = Some(
                                        Move {
                                            tube_from: from_idx,
                                            tube_to: to_idx,
                                            colour: from_top.colour.clone(),
                                            quantity: from_top.block_size,
                                        },
                                    );
                                }
                            },
                            Some(to_top) => {
                                if same_text(&to_top.colour, &from_top.colour) {
                                    let quantity = if from_top.block_size <= to_top.pos {
                                        from_top.block_size
                                    } else {
                                        to_top.pos
                                    };
                                    proposed = Some(
                                        Move {
                                            tube_from: from_idx,
                                            tube_to: to_idx,
                                            colour: from_top.colour.clone(),
                                            quantity,
                                        },
                                    );
                                }
                            },
                        }
                    }
                },
            }
            proof {
                if proposed is Some {
                    assert(prop == Some(proposed->0@));
                } else {
                    assert(prop is None);
                }
            }
            match proposed {
                Some(m) => {
                    proof {
                        lemma_proposal_legal(g, from_idx as int, to_idx as int, m);
                    }
                    moves.push(m);
                },
                None => {},
            }
            proof {
                assert(moves@.map_values(|m: Move| m@) =~= before.map_values(|m: Move| m@).add(
                    opt_seq(prop),
                ));
                assert(base.add(row_moves(tubes, from_idx as int, to_idx as int)).add(opt_seq(prop))
                    =~= base.add(row_moves(tubes, from_idx as int, to_idx + 1)));
            }
            to_idx = to_idx + 1;
        }
        from_idx = from_idx + 1;
    }
    moves
}


/// The state reached by playing `ms` from `g` in order, if each move is
/// legal when its turn comes.
pub open spec fn replay(g: GameView, ms: Seq<Move>) -> Option<GameView>
    decreases ms.len(),
{
    if ms.len() == 0 {
        Some(g)
    } else {
        match replay(g, ms.drop_last()) {
            Some(h) => if h.is_legal(ms.last()) {
                Some(h.applied(ms.last()))
            } else {
                None
            },
            None => None,
        }
    }
}

/// Some proposed move solves `g` at once.
pub open spec fn solved_in_one(g: GameView) -> bool {
    exists|m: Move| possible_moves(g.tubes).contains(m@) && #[trigger] g.applied(m).is_solved()
}

/// Two moves with the same view leave the same tubes.
proof fn lemma_applied_by_view(g: GameView, m1: Move, m2: Move)
    requires
        m1@ == m2@,
    ensures
        g.applied(m1).tubes == g.applied(m2).tubes,
{
    assert(m1.tube_from == m2.tube_from && m1.tube_to == m2.tube_to);
    assert(m1.colour@ == m2.colour@ && m1.quantity == m2.quantity);
}

/// The two tubes are the same: same number, same cells.
fn same_tube(a: &Tube, b: &Tube) -> (r: bool)
    ensures
        r == (a@ == b@),
{
    assert(a@.cells.len() == a.contents@.len() && b@.cells.len() == b.contents@.len());
    if a.tube_number != b.tube_number || a.contents.len() != b.contents.len() {
        return false;
    }
    let mut j: usize = 0;
    while j < a.contents.len()
        invariant
            j <= a.contents.len(),
            a.contents.len() == b.contents.len(),
            forall|k: int| 0 <= k < j ==> #[trigger] a@.cells[k] == b@.cells[k],
        decreases a.contents.len() - j,
    {
        proof {
            assert(a@.cells[j as int] == crate::tube::cell_view(a.contents@[j as int]));
            assert(b@.cells[j as int] == crate::tube::cell_view(b.contents@[j as int]));
        }
        if !same_cell(&a.contents[j], &b.contents[j]) {
            return false;
        }
        j = j + 1;
    }
    assert(a@.cells =~= b@.cells);
    true
}

/// The two games have the same tubes.
fn same_layout(a: &Game, b: &Game) -> (r: bool)
    ensures
        r == (a@.tubes == b@.tubes),
{
    assert(a@.tubes.len() == a.tubes@.len() && b@.tubes.len() == b.tubes@.len());
    if a.tubes.len() != b.tubes.len() {
        return false;
    }
    let mut i: usize = 0;
    while i < a.tubes.len()
        invariant
            i <= a.tubes.len(),
            a.tubes.len() == b.tubes.len(),
            forall|k: int| 0 <= k < i ==> #[trigger] a@.tubes[k] == b@.tubes[k],
        decreases a.tubes.len() - i,
    {
        proof {
            assert(a@.tubes[i as int] == a.tubes@[i as int]@);
            assert(b@.tubes[i as int] == b.tubes@[i as int]@);
        }
        if !same_tube(&a.tubes[i], &b.tubes[i]) {
            return false;
        }
        i = i + 1;
    }
    assert(a@.tubes =~= b@.tubes);
    true
}

/// Some game of `seen` has the tubes of `g`.
fn was_seen(seen: &Vec<Game>, g: &Game) -> (r: bool)
    ensures
        r == exists|i: int| 0 <= i < seen@.len() && (#[trigger] seen@[i])@.tubes == g@.tubes,
{
    let mut i: usize = 0;
    while i < seen.len()
        invariant
            i <= seen.len(),
            forall|k: int| 0 <= k < i ==> (#[trigger] seen@[k])@.tubes != g@.tubes,
        decreases seen.len() - i,
    {
        if same_layout(&seen[i], g) {
            return true;
        }
        i = i + 1;
    }
    false
}

/// The search state: the state it started from, that state's block count,
/// and buckets of states ordered by the block reductions still needed.
pub struct Solver {
    pub states: Vec<Vec<Game>>,
    pub current_state: Game,
    pub current_block_count: usize,
}

impl Solver {
    /// The starting state is well formed, can take one more move, and its
    /// block count is the one recorded.
    pub open spec fn wf(&self) -> bool {
        &&& self.current_state@.wf()
        &&& self.current_state.current_move < usize::MAX
        &&& self.current_block_count == game_blocks(self.current_state@.tubes)
    }

    /// A solver for `current_state`. When the state has no more blocks than
    /// colour tubes there is nothing to reduce and there are no buckets;
    /// otherwise there is one bucket per block to remove, and the first holds
    /// the starting state.
    pub fn new(current_state: &Game) -> (r: Solver)
        requires
            current_state@.wf(),
            current_state.current_move < usize::MAX,
        ensures
            r.wf(),
            r.current_state@ == current_state@,
            r.states@.len() == bucket_count(current_state@),
            r.states@.len() > 0 ==> r.states@[0]@.len() == 1 && r.states@[0]@[0]@
                == current_state@,
            forall|k: int| 1 <= k < r.states@.len() ==> (#[trigger] r.states@[k])@.len() == 0,
    {
        let number_of_blocks = current_state.get_number_of_blocks();
        let n = current_state.tubes.len();
        let mut states: Vec<Vec<Game>> = Vec::new();
        if n >= 2 && number_of_blocks <= n - 2 {
            return Solver {
                states,
                current_state: current_state.clone(),
                current_block_count: number_of_blocks,
            };
        }
        proof {
            crate::game::lemma_game_blocks_bound(current_state@.tubes);
        }
        let buckets = if n >= 2 {
            number_of_blocks - (n - 2)
        } else {
            number_of_blocks + (2 - n)
        };
        let mut k: usize = 0;
        while k < buckets
            invariant
                k <= buckets,
                states@.len() == k,
                forall|j: int| 0 <= j < k ==> (#[trigger] states@[j])@.len() == 0,
            decreases buckets - k,
        {
            states.push(Vec::new());
            k = k + 1;
        }
        let mut first: Vec<Game> = Vec::new();
        first.push(current_state.clone());
        states.set(0, first);
        Solver { states, current_state: current_state.clone(), current_block_count: number_of_blocks }
    }

    /// The moves worth trying from the starting state (see `proposal`), by
    /// source tube and then by destination tube. Each of them is legal.
    pub fn get_possible_moves(&self) -> (r: Vec<Move>)
        requires
            self.wf(),
        ensures
            r@.map_values(|m: Move| m@) == possible_moves(self.current_state@.tubes),
            forall|i: int| 0 <= i < r@.len() ==> self.current_state@.is_legal(#[trigger] r@[i]),
    {
        moves_from(&self.current_state)
    }

    /// The starting state after trying `possible_move`: a copy with the move
    /// applied when it is legal, an unchanged copy otherwise. The solver's
    /// own state is left as it is.
    pub fn peek_move(&self, possible_move: &Move) -> (r: Game)
        requires
            self.wf(),
        ensures
            r@ == peeked(self.current_state@, *possible_move),
            r@.wf(),
    {
        if !self.current_state.validate_move(possible_move) {
            return self.current_state.clone();
        }
        let mut peek_game = self.current_state.clone();
        peek_game.make_move(possible_move);
        peek_game
    }

    /// Trying `possible_move` lowers the block count below the starting
    /// state's.
    pub fn does_move_reduce_block_count(&self, possible_move: &Move) -> (r: bool)
        requires
            self.wf(),
        ensures
            r == (game_blocks(peeked(self.current_state@, *possible_move).tubes)
                < game_blocks(self.current_state@.tubes)),
    {
        self.current_block_count > self.peek_move(possible_move).get_number_of_blocks()
    }

    /// Searches for moves that solve the starting state: depth first, from
    /// each state trying the moves that lower the block count before the
    /// others, never entering a layout of tubes met before, and expanding at
    /// most `max_states` states. A returned sequence is legal move after move
    /// from the starting state and ends in a solved state; it is empty when
    /// the starting state is solved already. When one proposed move solves
    /// the starting state and at least one state may be expanded, a solution
    /// is found. `None` means that no solution was found within the bound.
    pub fn solve(&self, max_states: usize) -> (r: Option<Vec<Move>>)
        requires
            self.wf(),
        ensures
            self.current_state@.is_solved() ==> r is Some && r->0@.len() == 0,
            max_states > 0 && solved_in_one(self.current_state@) ==> r is Some,
            r is Some ==> replay(self.current_state@, r->0@) is Some && replay(
                self.current_state@,
                r->0@,
            )->0.is_solved(),
    {
        if self.current_state.is_game_complete() {
            return Some(Vec::new());
        }
        let ghost start = self.current_state@;
        let mut games: Vec<Game> = Vec::new();
        let mut paths: Vec<Vec<Move>> = Vec::new();
        let mut seen: Vec<Game> = Vec::new();
        games.push(self.current_state.clone());
        paths.push(Vec::new());
        seen.push(self.current_state.clone());
        proof {
            assert(paths@[0]@ =~= Seq::<Move>::empty());
        }
        let mut expanded: usize = 0;
        while expanded < max_states && games.len() > 0
            invariant
                self.wf(),
                start == self.current_state@,
                !start.is_solved(),
                expanded <= max_states,
                expanded == 0 ==> games@.len() == 1 && games@[0]@ == start,
                expanded > 0 ==> !solved_in_one(start),
                games@.len() == paths@.len(),
                forall|i: int|
                    0 <= i < games@.len() ==> (#[trigger] games@[i])@.wf() && replay(
                        start,
                        paths@[i]@,
                    ) == Some(games@[i]@),
            decreases max_states - expanded,
        {
            let ghost first = expanded == 0;
            let game = games.pop().unwrap();
            let path = paths.pop().unwrap();
            expanded = expanded + 1;
            proof {
                if first {
                    assert(game@ == start);
                }
            }
            proof {
                assert(game@.wf() && replay(start, path@) == Some(game@));
            }
            if game.current_move < usize::MAX {
                let blocks = game.get_number_of_blocks();
                let moves = moves_from(&game);
                let mut pass: usize = 0;
                while pass < 2
                    invariant
                        pass <= 2,
                        start == self.current_state@,
                        !start.is_solved(),
                        first ==> game@ == start,
                        first && pass > 0 ==> !solved_in_one(start),
                        moves@.map_values(|m: Move| m@) == possible_moves(game@.tubes),
                        game@.wf(),
                        game.current_move < usize::MAX,
                        replay(start, path@) == Some(game@),
                        forall|k: int| 0 <= k < moves@.len() ==> game@.is_legal(#[trigger] moves@[k]),
                        games@.len() == paths@.len(),
                        forall|i: int|
                            0 <= i < games@.len() ==> (#[trigger] games@[i])@.wf() && replay(
                                start,
                                paths@[i]@,
                            ) == Some(games@[i]@),
                    decreases 2 - pass,
                {
                    let mut k: usize = 0;
                    while k < moves.len()
                        invariant
                            start == self.current_state@,
                            !start.is_solved(),
                            first ==> game@ == start,
                            first && pass > 0 ==> !solved_in_one(start),
                            first && pass == 0 ==> forall|j: int|
                                0 <= j < k ==> !start.applied(#[trigger] moves@[j]).is_solved(),
                            pass < 2,
                            moves@.map_values(|m: Move| m@) == possible_moves(game@.tubes),
                            game@.wf(),
                            game.current_move < usize::MAX,
                            replay(start, path@) == Some(game@),
                            forall|k: int| 0 <= k < moves@.len() ==> game@.is_legal(#[trigger] moves@[k]),
                            k <= moves.len(),
                            games@.len() == paths@.len(),
                            forall|i: int|
                                0 <= i < games@.len() ==> (#[trigger] games@[i])@.wf() && replay(
                                    start,
                                    paths@[i]@,
                                ) == Some(games@[i]@),
                        decreases moves.len() - k,
                    {
                        let m = &moves[k];
                        let mut child = game.clone();
                        child.make_move(m);
                        let mut child_path = path.clone();
                        child_path.push(m.clone());
                        proof {
                            assert(game@.is_legal(*m));
                            assert(child_path@ =~= path@.push(*m));
                            assert(child_path@.drop_last() =~= path@);
                            assert(replay(start, child_path@) == Some(child@));
                        }
                        if pass == 0 && child.is_game_complete() {
                            return Some(child_path);
                        }
                        let progressing = child.get_number_of_blocks() < blocks;
                        if (pass == 1) == progressing && !was_seen(&seen, &child) {
                            seen.push(child.clone());
                            games.push(child);
                            paths.push(child_path);
                        }
                        k = k + 1;
                    }
                    proof {
                        if first && pass == 0 {
                            assert forall|m: Move|
                                possible_moves(start.tubes).contains(m@) implies !#[trigger] start.applied(
                                m,
                            ).is_solved() by {
                                let j = choose|j: int|
                                    0 <= j < possible_moves(start.tubes).len()
                                        && possible_moves(start.tubes)[j] == m@;
                                assert(moves@.map_values(|m: Move| m@)[j] == moves@[j]@);
                                lemma_applied_by_view(start, m, moves@[j]);
                                assert(!start.applied(moves@[j]).is_solved());
                            }
                        }
                    }
                    pass = pass + 1;
                }
            }
        }
        None
    }
}

} // verus!
