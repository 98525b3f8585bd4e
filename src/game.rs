//! The game: the tubes, the colours seen during setup and the log of moves.
use std::collections::HashMap;

use itertools::Itertools;

use vstd::prelude::*;

use crate::tube::{
    cell_view, cells_with, lemma_drained_range, lemma_first_filled, lemma_poured_from_count,
    lemma_poured_into_count, parse_cells, same_text, set_range, Tube, TubeView,
};
use crate::text::{decimal, decimal_text, upper_of, uppercase_char};
use crate::tube::tube_text;
use crate::TUBE_SIZE;

verus! {

broadcast use vstd::std_specs::hash::group_hash_axioms;

/// An intended pour: `quantity` cells of `colour` from tube `tube_from` to
/// tube `tube_to`.
pub struct Move {
    pub tube_from: usize,
    pub tube_to: usize,
    pub colour: String,
    pub quantity: usize,
}

/// The mathematical model of a move.
pub struct MoveView {
    pub from: usize,
    pub to: usize,
    pub colour: Seq<char>,
    pub quantity: usize,
}

impl View for Move {
    type V = MoveView;

    open spec fn view(&self) -> MoveView {
        MoveView {
            from: self.tube_from,
            to: self.tube_to,
            colour: self.colour@,
            quantity: self.quantity,
        }
    }
}

impl Clone for Move {
    fn clone(&self) -> (r: Self)
        ensures
            r == *self,
    {
        Move {
            tube_from: self.tube_from,
            tube_to: self.tube_to,
            colour: self.colour.clone(),
            quantity: self.quantity,
        }
    }
}

impl Move {
    /// The text of this move, such as `"1 -> 3: red x 2"`.
    pub fn to_text(&self) -> (r: String)
        ensures
            r@ == move_text(*self),
    {
        let mut out = decimal_text(self.tube_from as u128 + 1);
        out.append(" -> ");
        let to = decimal_text(self.tube_to as u128 + 1);
        out.append(to.as_str());
        out.append(": ");
        out.append(self.colour.as_str());
        out.append(" x ");
        let q = decimal_text(self.quantity as u128);
        out.append(q.as_str());
        out
    }
}

/// The mathematical model of a game.
pub struct GameView {
    pub tubes: Seq<TubeView>,
    pub moves: Map<usize, Move>,
    pub current_move: usize,
    pub colours: Seq<Seq<char>>,
}

impl GameView {
    /// Every tube has `TUBE_SIZE` cells and its index as its number, the
    /// move log holds exactly the moves numbered `1..=current_move`, and no
    /// colour is listed twice.
    pub open spec fn wf(self) -> bool {
        &&& forall|i: int|
            0 <= i < self.tubes.len() ==> (#[trigger] self.tubes[i]).cells.len() == TUBE_SIZE
                && self.tubes[i].number == i
        &&& self.tubes.len() <= usize::MAX / TUBE_SIZE
        &&& self.moves.dom() == Set::new(|k: usize| 1 <= k <= self.current_move)
        &&& self.moves.dom().finite()
        &&& self.colours.no_duplicates()
    }

    /// `m` names two tubes of the game; the first may give and the second
    /// may take what `m` pours.
    pub open spec fn is_legal(self, m: Move) -> bool {
        &&& m.tube_from < self.tubes.len()
        &&& m.tube_to < self.tubes.len()
        &&& self.tubes[m.tube_from as int].can_pour_from(m)
        &&& self.tubes[m.tube_to as int].can_pour_into(m)
    }

    /// The game after `m`: poured out of its source, then into its
    /// destination, and recorded under the next move number.
    pub open spec fn applied(self, m: Move) -> GameView {
        let drained = self.tubes.update(
            m.tube_from as int,
            self.tubes[m.tube_from as int].poured_from(m),
        );
        let filled = drained.update(m.tube_to as int, drained[m.tube_to as int].poured_into(m));
        GameView {
            tubes: filled,
            moves: self.moves.insert((self.current_move + 1) as usize, m),
            current_move: (self.current_move + 1) as usize,
            colours: self.colours,
        }
    }

    /// Two tubes more than colours, and every colour that a cell holds fills
    /// exactly `TUBE_SIZE` cells over all tubes.
    pub open spec fn setup_valid(self) -> bool {
        &&& self.tubes.len() == self.colours.len() + 2
        &&& forall|i: int, j: int|
            0 <= i < self.tubes.len() && 0 <= j < self.tubes[i].cells.len() && (
            #[trigger] self.tubes[i].cells[j]) is Some ==> colour_total(
                self.tubes,
                self.tubes[i].cells[j]->0,
            ) == TUBE_SIZE
    }

    /// Every tube is uniform.
    pub open spec fn is_solved(self) -> bool {
        forall|i: int| 0 <= i < self.tubes.len() ==> (#[trigger] self.tubes[i]).is_uniform()
    }
}

/// Cell `i` holds a colour and ends a run of it: it is the bottom cell, or
/// the cell below holds something else.
pub open spec fn is_run_end(cells: Seq<Option<Seq<char>>>, i: int) -> bool {
    cells[i] is Some && (i + 1 == cells.len() || cells[i + 1] != cells[i])
}

/// The number of run ends among the first `n` cells.
pub open spec fn count_run_ends(cells: Seq<Option<Seq<char>>>, n: int) -> nat
    decreases n,
{
    if n <= 0 {
        0
    } else {
        count_run_ends(cells, n - 1) + if is_run_end(cells, n - 1) {
            1nat
        } else {
            0nat
        }
    }
}

/// The blocks of one tube: its maximal runs of one colour.
pub open spec fn tube_blocks(cells: Seq<Option<Seq<char>>>) -> nat {
    count_run_ends(cells, cells.len() as int)
}

/// The block count of a game: the blocks of all its tubes.
pub open spec fn game_blocks(tubes: Seq<TubeView>) -> nat
    decreases tubes.len(),
{
    if tubes.len() == 0 {
        0
    } else {
        game_blocks(tubes.drop_last()) + tube_blocks(tubes.last().cells)
    }
}

pub proof fn lemma_count_run_ends_bound(cells: Seq<Option<Seq<char>>>, n: int)
    ensures
        count_run_ends(cells, n) <= if n < 0 {
            0
        } else {
            n
        },
    decreases n,
{
    if n > 0 {
        lemma_count_run_ends_bound(cells, n - 1);
    }
}

/// In a well-formed game every tube has at most `TUBE_SIZE` blocks.
pub proof fn lemma_game_blocks_bound(tubes: Seq<TubeView>)
    requires
        forall|i: int| 0 <= i < tubes.len() ==> (#[trigger] tubes[i]).cells.len() == TUBE_SIZE,
    ensures
        game_blocks(tubes) <= TUBE_SIZE * tubes.len(),
    decreases tubes.len(),
{
    if tubes.len() > 0 {
        let d = tubes.drop_last();
        assert forall|i: int| 0 <= i < d.len() implies (#[trigger] d[i]).cells.len()
            == TUBE_SIZE by {
            assert(d[i] == tubes[i]);
        }
        lemma_game_blocks_bound(d);
        lemma_count_run_ends_bound(tubes.last().cells, TUBE_SIZE as int);
    }
}

/// The number of blocks in `tube`.
fn tube_block_count(tube: &Tube) -> (r: usize)
    ensures
        r == tube_blocks(tube@.cells),
{
    let ghost cells = tube@.cells;
    let mut blocks: usize = 0;
    let mut current_colour: Option<String> = None;
    let mut i: usize = 0;
    while i < tube.contents.len()
        invariant
            cells == tube@.cells,
            i <= cells.len(),
            blocks == count_run_ends(cells, i - 1),
            blocks <= i,
            cell_view(current_colour) == if i == 0 {
                None
            } else {
                cells[i - 1]
            },
        decreases cells.len() - i,
    {
        proof {
            assert(cells[i as int] == cell_view(tube.contents@[i as int]));
            if i > 0 {
                assert(count_run_ends(cells, i as int) == count_run_ends(cells, i - 1) + if is_run_end(
                    cells,
                    i - 1,
                ) {
                    1nat
                } else {
                    0nat
                });
            }
            lemma_count_run_ends_bound(cells, i - 1);
        }
        match &tube.contents[i] {
            Some(col) => {
                match &current_colour {
                    None => {
                        current_colour = Some(col.clone());
                    },
                    Some(cur) => {
                        if !same_text(col, cur) {
                            blocks = blocks + 1;
                            current_colour = Some(col.clone());
                        }
                    },
                }
            },
            None => {
                if current_colour.is_some() {
                    current_colour = None;
                    blocks = blocks + 1;
                }
            },
        }
        i = i + 1;
    }
    proof {
        lemma_count_run_ends_bound(cells, i - 1);
    }
    if current_colour.is_some() {
        blocks = blocks + 1;
    }
    blocks
}

/// The number of cells holding `c` over all tubes.
pub open spec fn colour_total(tubes: Seq<TubeView>, c: Seq<char>) -> nat
    decreases tubes.len(),
{
    if tubes.len() == 0 {
        0
    } else {
        colour_total(tubes.drop_last(), c) + cells_with(
            tubes.last().cells,
            c,
            tubes.last().cells.len() as int,
        )
    }
}

/// The colours that some cell holds.
pub open spec fn colours_in(cells: Seq<Option<Seq<char>>>) -> Set<Seq<char>> {
    Set::new(|c: Seq<char>| exists|j: int| 0 <= j < cells.len() && cells[j] == Some(c))
}

/// `c` is listed in `colours`.
fn has_colour(colours: &Vec<String>, c: &String) -> (r: bool)
    ensures
        r == colours@.map_values(|s: String| s@).contains(c@),
{
    let ghost names = colours@.map_values(|s: String| s@);
    let mut i: usize = 0;
    while i < colours.len()
        invariant
            names == colours@.map_values(|s: String| s@),
            i <= colours.len(),
            forall|j: int| 0 <= j < i ==> #[trigger] names[j] != c@,
        decreases colours.len() - i,
    {
        if same_text(&colours[i], c) {
            assert(names[i as int] == c@);
            return true;
        }
        i = i + 1;
    }
    false
}

/// An empty tube numbered `number`.
fn empty_tube(number: usize) -> (r: Tube)
    ensures
        r@ == (TubeView { cells: Seq::new(TUBE_SIZE as nat, |j: int| None), number }),
{
    let mut contents: Vec<Option<String>> = Vec::new();
    let mut j: usize = 0;
    while j < TUBE_SIZE
        invariant
            j <= TUBE_SIZE,
            contents@.len() == j,
            forall|k: int| 0 <= k < j ==> #[trigger] contents@[k] is None,
        decreases TUBE_SIZE - j,
    {
        contents.push(None);
        j = j + 1;
    }
    let r = Tube { contents, tube_number: number };
    assert(r@.cells =~= Seq::new(TUBE_SIZE as nat, |j: int| None));
    r
}

/// The text of a move, such as `"1 -> 3: red x 2"`: tube numbers count
/// from 1.
pub open spec fn move_text(m: Move) -> Seq<char> {
    decimal((m.tube_from + 1) as nat) + " -> "@ + decimal((m.tube_to + 1) as nat) + ": "@ + m.colour@ + " x "@
        + decimal(m.quantity as nat)
}

/// The lines of the move log for moves `1..=n`, in order.
pub open spec fn log_text(moves: Map<usize, Move>, n: nat) -> Seq<char>
    decreases n,
{
    if n == 0 {
        Seq::empty()
    } else {
        log_text(moves, (n - 1) as nat) + decimal(n) + " : ("@ + move_text(moves[n as usize])
            + ")\n"@
    }
}

/// The text of a game: the text of each tube, each on a line of its own.
pub open spec fn game_text(tubes: Seq<TubeView>) -> Seq<char>
    decreases tubes.len(),
{
    if tubes.len() == 0 {
        Seq::empty()
    } else {
        game_text(tubes.drop_last()) + tube_text(tubes.last()) + "\n"@
    }
}

/// Relies on `itertools::Itertools::sorted_by_key`: it collects what the
/// map's iterator yields (each entry once) and sorts it by key, so the
/// entries come out in increasing key order.
#[verifier::external_body]
fn entries_by_key<'a>(m: &'a HashMap<usize, Move>) -> (r: Vec<(usize, &'a Move)>)
    ensures
        forall|i: int| 0 <= i < r@.len() ==> #[trigger] m@.contains_key(r@[i].0) && m@[r@[i].0] == *r@[i].1,
        forall|i: int, j: int| 0 <= i < j < r@.len() ==> r@[i].0 < r@[j].0,
        forall|k: usize| m@.contains_key(k) ==> exists|i: int| 0 <= i < r@.len() && #[trigger] r@[i].0 == k,
{
    m.iter().sorted_by_key(|e| *e.0).map(|(k, v)| (*k, v)).collect()
}

/// `k` is one of `keys`.
pub open spec fn lists_key(keys: Seq<usize>, k: usize) -> bool {
    exists|i: int| 0 <= i < keys.len() && keys[i] == k
}

/// Strictly increasing keys in `1..=n` that include each of `1..=n` are
/// exactly `1, 2, ..., n`.
proof fn lemma_keys_in_order(keys: Seq<usize>, n: usize)
    requires
        forall|i: int, j: int| 0 <= i < j < keys.len() ==> keys[i] < keys[j],
        forall|i: int| 0 <= i < keys.len() ==> 1 <= #[trigger] keys[i] <= n,
        forall|k: usize| 1 <= k <= n ==> #[trigger] lists_key(keys, k),
    ensures
        keys.len() == n,
        forall|i: int| 0 <= i < keys.len() ==> #[trigger] keys[i] == i + 1,
{
    assert forall|i: int| 0 <= i < keys.len() implies #[trigger] keys[i] >= i + 1 by {
        lemma_keys_lower(keys, i);
    }
    assert forall|i: int| 0 <= i < keys.len() implies #[trigger] keys[i] == i + 1 by {
        lemma_keys_exact(keys, n, i);
    }
    if keys.len() > 0 {
        assert(keys[keys.len() - 1] <= n);
    }
    if n > 0 {
        assert(lists_key(keys, n));
        let j = choose|j: int| 0 <= j < keys.len() && keys[j] == n;
        assert(keys[j] == j + 1);
    }
}

proof fn lemma_keys_lower(keys: Seq<usize>, i: int)
    requires
        0 <= i < keys.len(),
        forall|a: int, b: int| 0 <= a < b < keys.len() ==> keys[a] < keys[b],
        forall|a: int| 0 <= a < keys.len() ==> 1 <= #[trigger] keys[a],
    ensures
        keys[i] >= i + 1,
    decreases i,
{
    if i > 0 {
        lemma_keys_lower(keys, i - 1);
    }
}

proof fn lemma_keys_exact(keys: Seq<usize>, n: usize, i: int)
    requires
        0 <= i < keys.len(),
        forall|a: int, b: int| 0 <= a < b < keys.len() ==> keys[a] < keys[b],
        forall|a: int| 0 <= a < keys.len() ==> 1 <= #[trigger] keys[a] <= n,
        forall|a: int| 0 <= a < keys.len() ==> #[trigger] keys[a] >= a + 1,
        forall|k: usize| 1 <= k <= n ==> #[trigger] lists_key(keys, k),
    ensures
        keys[i] == i + 1,
    decreases i,
{
    if keys[i] > i + 1 {
        let k = (i + 1) as usize;
        assert(lists_key(keys, k));
        let j = choose|a: int| 0 <= a < keys.len() && keys[a] == k;
        if j < i {
            lemma_keys_exact(keys, n, j);
        }
    }
}

/// The state of a game.
pub struct Game {
    pub tubes: Vec<Tube>,
    pub moves: HashMap<usize, Move>,
    pub current_move: usize,
    /// The colours seen during setup, each once. A list: over `String` keys a
    /// hash set's operations have no contract that could be relied on.
    pub colours: Vec<String>,
}

impl View for Game {
    type V = GameView;

    open spec fn view(&self) -> GameView {
        GameView {
            tubes: self.tubes@.map_values(|t: Tube| t@),
            moves: self.moves@,
            current_move: self.current_move,
            colours: self.colours@.map_values(|s: String| s@),
        }
    }
}

impl Default for Game {
    fn default() -> (r: Self)
        ensures
            r@.tubes.len() == 0,
            r@.moves == Map::<usize, Move>::empty(),
            r@.current_move == 0,
            r@.colours.len() == 0,
            r@.wf(),
    {
        let r = Game {
            tubes: Vec::new(),
            moves: HashMap::new(),
            current_move: 0,
            colours: Vec::new(),
        };
        assert(r@.moves.dom() =~= Set::new(|k: usize| 1 <= k <= 0usize));
        r
    }
}

impl Clone for Game {
    fn clone(&self) -> (r: Self)
        ensures
            r@ == self@,
    {
        let mut tubes: Vec<Tube> = Vec::new();
        let mut i: usize = 0;
        while i < self.tubes.len()
            invariant
                i <= self.tubes.len(),
                tubes@.len() == i,
                forall|j: int| 0 <= j < i ==> #[trigger] tubes@[j]@ == self.tubes@[j]@,
            decreases self.tubes.len() - i,
        {
            tubes.push(self.tubes[i].clone());
            i = i + 1;
        }
        let r = Game {
            tubes,
            moves: self.moves.clone(),
            current_move: self.current_move,
            colours: self.colours.clone(),
        };
        assert(r@.tubes =~= self@.tubes);
        assert(r@.colours =~= self@.colours);
        r
    }
}

impl Game {
    /// Whether `a_move` is legal: both tubes exist, the source can give and
    /// the destination can take what it pours.
    pub fn validate_move(&self, a_move: &Move) -> (r: bool)
        ensures
            r == self@.is_legal(*a_move),
    {
        if a_move.tube_from >= self.tubes.len() || a_move.tube_to >= self.tubes.len() {
            return false;
        }
        let from_tube = &self.tubes[a_move.tube_from];
        let to_tube = &self.tubes[a_move.tube_to];
        from_tube.is_valid_move_from(a_move) && to_tube.is_valid_move_to(a_move)
    }

    /// Every tube is uniform: filled with one colour, or empty.
    pub fn is_game_complete(&self) -> (r: bool)
        ensures
            r == self@.is_solved(),
    {
        let mut i: usize = 0;
        while i < self.tubes.len()
            invariant
                i <= self.tubes.len(),
                forall|j: int| 0 <= j < i ==> (#[trigger] self@.tubes[j]).is_uniform(),
            decreases self.tubes.len() - i,
        {
            proof {
                assert(self@.tubes[i as int] == self.tubes@[i as int]@);
            }
            if !self.tubes[i].is_tube_all_same_contents() {
                return false;
            }
            i = i + 1;
        }
        true
    }

    /// There are two tubes more than colours.
    pub fn is_num_of_colours_valid(&self) -> (r: bool)
        ensures
            r == (self@.colours.len() + 2 == self@.tubes.len()),
    {
        self.tubes.len() >= 2 && self.colours.len() == self.tubes.len() - 2
    }

    /// Applies `a_move` when it is legal: pours out of the source, into the
    /// destination, and records the move under the next move number. An
    /// illegal move is ignored and leaves the game as it was.
    pub fn make_move(&mut self, a_move: &Move)
        requires
            old(self)@.wf(),
            old(self).current_move < usize::MAX,
        ensures
            !old(self)@.is_legal(*a_move) ==> *final(self) == *old(self),
            final(self)@ == if old(self)@.is_legal(*a_move) {
                old(self)@.applied(*a_move)
            } else {
                old(self)@
            },
            final(self)@.wf(),
    {
        if !self.validate_move(a_move) {
            return ;
        }
        let ghost g0 = self@;
        let from = a_move.tube_from;
        let to = a_move.tube_to;
        let mut t = Tube { contents: Vec::new(), tube_number: 0 };
        self.tubes.set_and_swap(from, &mut t);
        t.pour_from(a_move);
        self.tubes.set_and_swap(from, &mut t);
        let ghost drained_tubes = g0.tubes.update(from as int, g0.tubes[from as int].poured_from(*a_move));
        assert(self@.tubes =~= drained_tubes);
        let mut u = Tube { contents: Vec::new(), tube_number: 0 };
        self.tubes.set_and_swap(to, &mut u);
        proof {
            assert(u@ == drained_tubes[to as int]);
            let before = g0.tubes[to as int];
            lemma_first_filled(before.cells);
            lemma_first_filled(u@.cells);
            if from == to {
                let p = before.top_pos() as int;
                assert(u@.cells == set_range(before.cells, p, p + a_move.quantity, None));
                if u@.has_top() {
                    let f = u@.top_pos() as int;
                    if f < p + a_move.quantity {
                        assert(u@.cells[f] is None);
                    }
                }
            }
        }
        u.pour_to(a_move);
        self.tubes.set_and_swap(to, &mut u);
        self.current_move = self.current_move + 1;
        self.moves.insert(self.current_move, a_move.clone());
        proof {
            let g1 = g0.applied(*a_move);
            assert(self@.tubes =~= g1.tubes);
            assert(self@.moves.dom() =~= Set::new(|k: usize| 1 <= k <= self.current_move));
            assert forall|i: int| 0 <= i < self@.tubes.len() implies (#[trigger] self@.tubes[i]).cells.len()
                == TUBE_SIZE && self@.tubes[i].number == i by {
                assert(g0.tubes[i].cells.len() == TUBE_SIZE);
            }
        }
    }

    /// The block count: over all tubes, the number of maximal runs of one
    /// colour.
    pub fn get_number_of_blocks(&self) -> (r: usize)
        requires
            self@.wf(),
        ensures
            r == game_blocks(self@.tubes),
    {
        let mut blocks: usize = 0;
        let mut i: usize = 0;
        while i < self.tubes.len()
            invariant
                self@.wf(),
                i <= self.tubes.len(),
                blocks == game_blocks(self@.tubes.take(i as int)),
                blocks <= TUBE_SIZE * i,
            decreases self.tubes.len() - i,
        {
            let b = tube_block_count(&self.tubes[i]);
            proof {
                let ti = self@.tubes.take(i + 1);
                assert(ti.drop_last() =~= self@.tubes.take(i as int));
                assert(ti.last() == self.tubes@[i as int]@);
                assert(self@.tubes[i as int].cells.len() == TUBE_SIZE);
                lemma_count_run_ends_bound(self@.tubes[i as int].cells, TUBE_SIZE as int);
                assert(TUBE_SIZE * (i + 1) <= usize::MAX) by (nonlinear_arith)
                    requires i < self@.tubes.len(), self@.tubes.len() <= usize::MAX / TUBE_SIZE;
            }
            blocks = blocks + b;
            i = i + 1;
        }
        assert(self@.tubes.take(i as int) =~= self@.tubes);
        blocks
    }

    /// Replaces the tubes with `num_of_tubes` empty ones numbered from 0, and
    /// clears the move log and the colours.
    pub fn init_tubes(&mut self, num_of_tubes: usize)
        requires
            4 <= num_of_tubes <= usize::MAX / TUBE_SIZE,
        ensures
            final(self)@.tubes == Seq::new(
                num_of_tubes as nat,
                |i: int| TubeView { cells: Seq::new(TUBE_SIZE as nat, |j: int| None), number: i as usize },
            ),
            final(self)@.moves == Map::<usize, Move>::empty(),
            final(self)@.current_move == 0,
            final(self)@.colours.len() == 0,
            final(self)@.wf(),
    {
        let mut tubes: Vec<Tube> = Vec::new();
        let mut idx: usize = 0;
        while idx < num_of_tubes
            invariant
                idx <= num_of_tubes,
                tubes@.len() == idx,
                forall|i: int| 0 <= i < idx ==> (#[trigger] tubes@[i])@ == (TubeView {
                    cells: Seq::new(TUBE_SIZE as nat, |j: int| None),
                    number: i as usize,
                }),
            decreases num_of_tubes - idx,
        {
            tubes.push(empty_tube(idx));
            idx = idx + 1;
        }
        self.tubes = tubes;
        self.moves = HashMap::new();
        self.current_move = 0;
        self.colours = Vec::new();
        assert(self@.tubes =~= Seq::new(
            num_of_tubes as nat,
            |i: int| TubeView { cells: Seq::new(TUBE_SIZE as nat, |j: int| None), number: i as usize },
        ));
        assert(self@.moves.dom() =~= Set::new(|k: usize| 1 <= k <= 0usize));
        assert(self@.colours =~= Seq::<Seq<char>>::empty());
    }

    /// Sets tube `tube_num` from a description (see `Tube::from_string`) and
    /// adds the colours it holds to the colours of the game.
    pub fn init_tube_contents(&mut self, tube_num: usize, contents: String)
        requires
            tube_num < old(self).tubes.len(),
        ensures
            final(self)@.tubes == old(self)@.tubes.update(
                tube_num as int,
                TubeView { cells: parse_cells(contents@), number: tube_num },
            ),
            final(self)@.moves == old(self)@.moves,
            final(self)@.current_move == old(self)@.current_move,
            final(self)@.colours.to_set() == old(self)@.colours.to_set().union(
                colours_in(parse_cells(contents@)),
            ),
            old(self)@.colours.no_duplicates() ==> final(self)@.colours.no_duplicates(),
            old(self)@.wf() && parse_cells(contents@).len() == TUBE_SIZE ==> final(self)@.wf(),
    {
        let tube = Tube::from_string(contents, tube_num);
        let ghost cells = tube@.cells;
        let ghost c0 = self@.colours;
        let mut i: usize = 0;
        while i < tube.contents.len()
            invariant
                cells == tube@.cells,
                i <= cells.len(),
                self.tubes == old(self).tubes,
                self.moves == old(self).moves,
                self.current_move == old(self).current_move,
                c0 == old(self)@.colours,
                self@.colours.to_set() == c0.to_set().union(colours_in(cells.take(i as int))),
                c0.no_duplicates() ==> self@.colours.no_duplicates(),
            decreases cells.len() - i,
        {
            let ghost before = self@.colours;
            proof {
                assert(cells[i as int] == cell_view(tube.contents@[i as int]));
            }
            match &tube.contents[i] {
                Some(col) => {
                    if !has_colour(&self.colours, col) {
                        self.colours.push(col.clone());
                        proof {
                            assert(self@.colours =~= before.push(col@));
                        }
                    }
                    proof {
                        assert(self@.colours.contains(col@)) by {
                            if self@.colours != before {
                                assert(self@.colours[before.len() as int] == col@);
                            }
                        }
                    }
                },
                None => {},
            }
            proof {
                let t = cells.take(i + 1);
                assert(t.drop_last() =~= cells.take(i as int));
                assert(cells[i as int] is Some ==> self@.colours.contains(cells[i as int]->0));
                assert(self@.colours == before || (cells[i as int] is Some && self@.colours
                    == before.push(cells[i as int]->0)));
                assert forall|c: Seq<char>| #[trigger] self@.colours.to_set().contains(c) == c0.to_set().union(colours_in(t)).contains(c) by {
                    assert(before.to_set().contains(c) == c0.to_set().union(
                        colours_in(cells.take(i as int)),
                    ).contains(c));
                    if c0.contains(c) {
                        assert(c0.to_set().contains(c));
                        assert(before.contains(c));
                    }
                    if colours_in(t).contains(c) {
                        let j = choose|j: int| 0 <= j < t.len() && t[j] == Some(c);
                        if j < i {
                            assert(cells.take(i as int)[j] == Some(c));
                            assert(colours_in(cells.take(i as int)).contains(c));
                            assert(before.contains(c));
                        } else {
                            assert(cells[i as int] == Some(c));
                        }
                    }
                    if colours_in(t).contains(c) && !colours_in(cells.take(i as int)).contains(c) {
                        let j = choose|j: int| 0 <= j < t.len() && t[j] == Some(c);
                        if j < i {
                            assert(cells.take(i as int)[j] == Some(c));
                        }
                        assert(self@.colours.contains(c));
                    }
                    if colours_in(cells.take(i as int)).contains(c) {
                        let j = choose|j: int| 0 <= j < i && cells.take(i as int)[j] == Some(c);
                        assert(t[j] == Some(c));
                    }
                    if self@.colours.contains(c) && !before.contains(c) {
                        let k = choose|k: int| 0 <= k < self@.colours.len() && self@.colours[k] == c;
                        assert(c == cells[i as int]->0);
                        assert(t[i as int] == Some(c));
                    }
                    if before.contains(c) {
                        let k = choose|k: int| 0 <= k < before.len() && before[k] == c;
                        assert(self@.colours[k] == c);
                    }
                }
                assert(self@.colours.to_set() =~= c0.to_set().union(colours_in(t)));
            }
            i = i + 1;
        }
        self.tubes.set(tube_num, tube);
        proof {
            assert(cells.take(i as int) =~= cells);
            assert(self@.tubes =~= old(self)@.tubes.update(
                tube_num as int,
                TubeView { cells: parse_cells(contents@), number: tube_num },
            ));
        }
    }

    /// The number of cells holding `colour` over all tubes.
    fn count_colour(&self, colour: &String) -> (r: usize)
        requires
            self@.wf(),
        ensures
            r == colour_total(self@.tubes, colour@),
    {
        let mut total: usize = 0;
        let mut i: usize = 0;
        while i < self.tubes.len()
            invariant
                self@.wf(),
                i <= self.tubes.len(),
                total == colour_total(self@.tubes.take(i as int), colour@),
                total <= TUBE_SIZE * i,
            decreases self.tubes.len() - i,
        {
            let tube = &self.tubes[i];
            let ghost cells = tube@.cells;
            proof {
                assert(self@.tubes[i as int] == tube@);
                assert(TUBE_SIZE * (i + 1) <= usize::MAX) by (nonlinear_arith)
                    requires
                        i < self@.tubes.len(),
                        self@.tubes.len() <= usize::MAX / TUBE_SIZE,
                ;
            }
            let mut in_tube: usize = 0;
            let mut j: usize = 0;
            while j < tube.contents.len()
                invariant
                    cells == tube@.cells,
                    cells.len() == TUBE_SIZE,
                    j <= cells.len(),
                    in_tube == cells_with(cells, colour@, j as int),
                    in_tube <= j,
                decreases cells.len() - j,
            {
                proof {
                    assert(cells[j as int] == cell_view(tube.contents@[j as int]));
                }
                match &tube.contents[j] {
                    Some(col) => {
                        if same_text(col, colour) {
                            in_tube = in_tube + 1;
                        }
                    },
                    None => {},
                }
                j = j + 1;
            }
            proof {
                let ti = self@.tubes.take(i + 1);
                assert(ti.drop_last() =~= self@.tubes.take(i as int));
                assert(ti.last() == tube@);
            }
            total = total + in_tube;
            i = i + 1;
        }
        assert(self@.tubes.take(i as int) =~= self@.tubes);
        total
    }

    /// Whether the setup can be played: there are two tubes more than
    /// colours, and every colour in the tubes fills exactly `TUBE_SIZE` cells.
    pub fn validate_setup(&self) -> (r: bool)
        requires
            self@.wf(),
        ensures
            r == self@.setup_valid(),
    {
        if self.tubes.len() < 2 || self.tubes.len() - 2 != self.colours.len() {
            return false;
        }
        let mut i: usize = 0;
        while i < self.tubes.len()
            invariant
                self@.wf(),
                self@.tubes.len() == self@.colours.len() + 2,
                i <= self.tubes.len(),
                forall|a: int, b: int|
                    0 <= a < i && 0 <= b < self@.tubes[a].cells.len() && (
                    #[trigger] self@.tubes[a].cells[b]) is Some ==> colour_total(
                        self@.tubes,
                        self@.tubes[a].cells[b]->0,
                    ) == TUBE_SIZE,
            decreases self.tubes.len() - i,
        {
            let tube = &self.tubes[i];
            assert(self@.tubes[i as int] == tube@);
            let mut j: usize = 0;
            while j < tube.contents.len()
                invariant
                    self@.wf(),
                    self@.tubes[i as int] == tube@,
                    i < self@.tubes.len(),
                    j <= tube.contents.len(),
                    forall|b: int|
                        0 <= b < j && (#[trigger] tube@.cells[b]) is Some ==> colour_total(
                            self@.tubes,
                            tube@.cells[b]->0,
                        ) == TUBE_SIZE,
                decreases tube.contents.len() - j,
            {
                proof {
                    assert(tube@.cells[j as int] == cell_view(tube.contents@[j as int]));
                }
                match &tube.contents[j] {
                    Some(col) => {
                        if self.count_colour(col) != TUBE_SIZE {
                            return false;
                        }
                    },
                    None => {},
                }
                j = j + 1;
            }
            i = i + 1;
        }
        true
    }

    /// The move log, one line per move in order: `"<n> : (<move>)"`.
    pub fn get_all_moves_string(&self) -> (r: String)
        requires
            self@.wf(),
        ensures
            r@ == log_text(self@.moves, self.current_move as nat),
    {
        let entries = entries_by_key(&self.moves);
        let ghost keys = entries@.map_values(|e: (usize, &Move)| e.0);
        proof {
            assert forall|k: usize| 1 <= k <= self.current_move implies #[trigger] lists_key(keys, k) by {
                assert(self@.moves.dom().contains(k));
                let i = choose|i: int| 0 <= i < entries@.len() && #[trigger] entries@[i].0 == k;
                assert(keys[i] == k);
            }
            assert forall|i: int| 0 <= i < keys.len() implies 1 <= #[trigger] keys[i]
                <= self.current_move by {
                assert(self@.moves.contains_key(entries@[i].0));
            }
            lemma_keys_in_order(keys, self.current_move);
        }
        let mut all_moves = String::new();
        let mut i: usize = 0;
        while i < entries.len()
            invariant
                self@.wf(),
                keys == entries@.map_values(|e: (usize, &Move)| e.0),
                keys.len() == self.current_move,
                forall|k: int| 0 <= k < keys.len() ==> #[trigger] keys[k] == k + 1,
                forall|k: int| 0 <= k < entries@.len() ==> #[trigger] self@.moves.contains_key(entries@[k].0)
                    && self@.moves[entries@[k].0] == *entries@[k].1,
                i <= entries.len(),
                all_moves@ == log_text(self@.moves, i as nat),
            decreases entries.len() - i,
        {
            let (move_num, a_move) = entries[i];
            proof {
                assert(entries@[i as int].0 == move_num && entries@[i as int].1 == a_move);
                assert(self@.moves.contains_key(entries@[i as int].0));
                assert(keys[i as int] == move_num);
                assert(self@.moves[move_num] == *a_move);
            }
            let n = decimal_text(move_num as u128);
            all_moves.append(n.as_str());
            all_moves.append(" : (");
            let t = a_move.to_text();
            all_moves.append(t.as_str());
            all_moves.append(")\n");
            i = i + 1;
            proof {
                assert(all_moves@ =~= log_text(self@.moves, i as nat));
            }
        }
        all_moves
    }

    /// The text of the game: one line per tube.
    pub fn to_text(&self) -> (r: String)
        ensures
            r@ == game_text(self@.tubes),
    {
        let mut out = String::new();
        let mut i: usize = 0;
        while i < self.tubes.len()
            invariant
                i <= self.tubes.len(),
                out@ == game_text(self@.tubes.take(i as int)),
            decreases self.tubes.len() - i,
        {
            let t = self.tubes[i].to_text();
            out.append(t.as_str());
            out.append("\n");
            proof {
                let ti = self@.tubes.take(i + 1);
                assert(ti.drop_last() =~= self@.tubes.take(i as int));
                assert(ti.last() == self.tubes@[i as int]@);
                assert(out@ =~= game_text(ti));
            }
            i = i + 1;
        }
        assert(self@.tubes.take(i as int) =~= self@.tubes);
        out
    }

    /// A colour of the game with its first character upper-cased, or
    /// `"Empty"` for a name that is not a colour of the game.
    pub fn print_colour(&self, requested_colour: &str) -> (r: String)
        requires
            requested_colour@.len() > 0 || !self@.colours.contains(requested_colour@),
        ensures
            r@ == if self@.colours.contains(requested_colour@) {
                upper_of(requested_colour@[0]) + requested_colour@.drop_first()
            } else {
                "Empty"@
            },
    {
        let requested = requested_colour.to_owned();
        if has_colour(&self.colours, &requested) {
            let first = requested_colour.get_char(0);
            let mut out = uppercase_char(first);
            let len = requested_colour.unicode_len();
            out.append(requested_colour.substring_char(1, len));
            proof {
                assert(requested_colour@.subrange(1, len as int) =~= requested_colour@.drop_first());
            }
            out
        } else {
            "Empty".to_owned()
        }
    }
}

/// A move from a tube to itself is illegal, unless the tube's top segment
/// has at least `quantity` empty cells above it.
pub proof fn lemma_move_to_same_tube_illegal(g: GameView, m: Move)
    requires
        m.tube_from == m.tube_to,
        m.tube_from < g.tubes.len(),
        !g.tubes[m.tube_from as int].has_top() || g.tubes[m.tube_from as int].top_pos()
            < m.quantity,
    ensures
        !g.is_legal(m),
{
}

/// A legal move of `q` cells of the source's top colour into an empty tube
/// empties the first `q` cells of the source's top segment, fills the bottom
/// `q` cells of the destination with the move's colour, leaves the other
/// tubes as they were, and adds exactly one entry to the move log: the move,
/// under the new move number.
pub proof fn lemma_move_into_empty_tube(g: GameView, m: Move)
    requires
        g.wf(),
        g.current_move < usize::MAX,
        g.is_legal(m),
        g.tubes[m.tube_from as int].top_colour() == m.colour@,
        !g.tubes[m.tube_to as int].has_top(),
    ensures
        ({
            let g2 = g.applied(m);
            let a = g.tubes[m.tube_from as int];
            let b = g.tubes[m.tube_to as int];
            let p = a.top_pos() as int;
            &&& m.tube_from != m.tube_to
            &&& m.quantity <= a.top_block()
            &&& g2.tubes[m.tube_from as int].cells == set_range(a.cells, p, p + m.quantity, None)
            &&& g2.tubes[m.tube_to as int].cells == set_range(
                b.cells,
                TUBE_SIZE - m.quantity,
                TUBE_SIZE as int,
                Some(m.colour@),
            )
            &&& forall|i: int|
                0 <= i < g.tubes.len() && i != m.tube_from && i != m.tube_to ==> g2.tubes[i]
                    == #[trigger] g.tubes[i]
            &&& g2.moves.len() == g.moves.len() + 1
            &&& g2.current_move == g.current_move + 1
            &&& g2.moves[g2.current_move] == m
            &&& forall|k: usize| #[trigger] g.moves.contains_key(k) ==> g2.moves[k] == g.moves[k]
        }),
{
    let a = g.tubes[m.tube_from as int];
    let p = a.top_pos() as int;
    let q = m.quantity as int;
    lemma_first_filled(a.cells);
    assert(a.has_top());
    assert(m.tube_from != m.tube_to);
    if q > 0 {
        assert(p <= p + q - 1 < p + q);
        assert(a.cells[p + q - 1] == Some(m.colour@));
        assert(a.cells[p] == Some(m.colour@));
        lemma_top_block_covers(a.cells, p, m.colour@, q);
    } else {
        assert(a.cells[p] is Some);
    }
    lemma_drained_range(a.cells, p, m.colour@, m.quantity as nat);
    let n = (g.current_move + 1) as usize;
    assert(!g.moves.dom().contains(n));
    let g2 = g.applied(m);
    assert(g2.moves.dom() == g.moves.dom().insert(n));
    assert(g2.moves.len() == g.moves.len() + 1);
    assert(g2.moves[g2.current_move] == m);
}

/// A run of `q` cells of `c` from `p` lies within the run that starts there.
proof fn lemma_top_block_covers(cells: Seq<Option<Seq<char>>>, p: int, c: Seq<char>, q: int)
    requires
        0 <= p,
        0 <= q,
        p + q <= cells.len(),
        forall|i: int| p <= i < p + q ==> #[trigger] cells[i] == Some(c),
    ensures
        q <= crate::tube::run_from(cells, p, c),
    decreases q,
{
    if q > 0 {
        assert(cells[p] == Some(c));
        lemma_top_block_covers(cells, p + 1, c, q - 1);
    }
}

/// Replacing tube `i` by `t` changes the total of `c` by the difference
/// between the two tubes.
pub proof fn lemma_colour_total_update(tubes: Seq<TubeView>, i: int, t: TubeView, c: Seq<char>)
    requires
        0 <= i < tubes.len(),
    ensures
        colour_total(tubes.update(i, t), c) + cells_with(
            tubes[i].cells,
            c,
            tubes[i].cells.len() as int,
        ) == colour_total(tubes, c) + cells_with(t.cells, c, t.cells.len() as int),
    decreases tubes.len(),
{
    let u = tubes.update(i, t);
    if i == tubes.len() - 1 {
        assert(u.drop_last() =~= tubes.drop_last());
    } else {
        assert(u.drop_last() =~= tubes.drop_last().update(i, t));
        lemma_colour_total_update(tubes.drop_last(), i, t, c);
    }
}

/// Conservation of colours in a game: over all tubes, a move leaves as
/// many cells of every colour as there were; a legal move pours them from
/// one tube to another, and an illegal one changes nothing.
pub proof fn lemma_move_conserves_colours(g: GameView, m: Move, c: Seq<char>)
    requires
        g.wf(),
    ensures
        colour_total(
            (if g.is_legal(m) {
                g.applied(m)
            } else {
                g
            }).tubes,
            c,
        ) == colour_total(g.tubes, c),
{
    if g.is_legal(m) {
        let from = m.tube_from as int;
        let to = m.tube_to as int;
        let a = g.tubes[from];
        let drained = g.tubes.update(from, a.poured_from(m));
        lemma_poured_from_count(a, m, c);
        lemma_colour_total_update(g.tubes, from, a.poured_from(m), c);
        let b = drained[to];
        lemma_first_filled(b.cells);
        assert(b.cells.len() == TUBE_SIZE) by {
            if from != to {
                assert(b == g.tubes[to]);
            }
        }
        if from == to {
            let p = a.top_pos() as int;
            lemma_first_filled(a.cells);
            if m.quantity > 0 {
                assert(p <= p + m.quantity - 1 < p + m.quantity);
                assert(a.cells[p + m.quantity - 1] == Some(m.colour@));
            }
            lemma_drained_range(a.cells, p, m.colour@, m.quantity as nat);
            assert(b.cells == set_range(a.cells, p, p + m.quantity, None));
            if b.has_top() {
                let f = b.top_pos() as int;
                if f < p + m.quantity {
                    assert(b.cells[f] is None);
                }
            }
        } else {
            assert(b == g.tubes[to]);
        }
        lemma_poured_into_count(b, m, c);
        lemma_colour_total_update(drained, to, b.poured_into(m), c);
    }
}

} // verus!
