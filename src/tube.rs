//! A tube: a fixed number of cells, each empty or holding one colour. Cell 0
//! is the mouth, where liquid is poured in and out; the last cell is the
//! bottom.
use vstd::prelude::*;

use crate::game::Move;
use crate::text::{
    decimal, decimal_text, is_white_space, lemma_split_append, lemma_split_single, lower_of,
    lowercase, split_on, split_spec, trim_end_spec, trim_spec, trim_start_spec, trim_text,
};
use crate::TUBE_SIZE;

verus! {

/// What a cell holds: a colour name, or nothing.
pub open spec fn cell_view(c: Option<String>) -> Option<Seq<char>> {
    match c {
        Some(s) => Some(s@),
        None => None,
    }
}

/// The mathematical model of a tube.
pub struct TubeView {
    pub cells: Seq<Option<Seq<char>>>,
    pub number: usize,
}

/// Index of the first filled cell, scanning from the mouth; the number of
/// cells when all are empty.
pub open spec fn first_filled(cells: Seq<Option<Seq<char>>>) -> nat
    decreases cells.len(),
{
    if cells.len() == 0 {
        0
    } else if cells[0] is Some {
        0
    } else {
        1 + first_filled(cells.drop_first())
    }
}

/// Length of the run of cells holding `c` that starts at `start`.
pub open spec fn run_from(cells: Seq<Option<Seq<char>>>, start: int, c: Seq<char>) -> nat
    decreases cells.len() - start,
{
    if 0 <= start < cells.len() && cells[start] == Some(c) {
        1 + run_from(cells, start + 1, c)
    } else {
        0
    }
}

/// `cells` with every index in `[lo, hi)` set to `v`.
pub open spec fn set_range(
    cells: Seq<Option<Seq<char>>>,
    lo: int,
    hi: int,
    v: Option<Seq<char>>,
) -> Seq<Option<Seq<char>>> {
    Seq::new(cells.len(), |i: int| if lo <= i < hi { v } else { cells[i] })
}

/// What pouring `q` cells of `c` out of `cells` leaves: scanning from the
/// mouth, empty cells are passed over and cells of `c` are emptied until `q`
/// of them are; a cell of another colour ends the pour.
pub open spec fn drained(cells: Seq<Option<Seq<char>>>, c: Seq<char>, q: nat) -> Seq<
    Option<Seq<char>>,
>
    decreases cells.len(),
{
    if q == 0 || cells.len() == 0 {
        cells
    } else {
        match cells[0] {
            None => seq![None].add(drained(cells.drop_first(), c, q)),
            Some(x) => if x == c {
                seq![None].add(drained(cells.drop_first(), c, (q - 1) as nat))
            } else {
                cells
            },
        }
    }
}

impl TubeView {
    pub open spec fn has_top(self) -> bool {
        first_filled(self.cells) < self.cells.len()
    }

    /// Position of the top segment.
    pub open spec fn top_pos(self) -> nat {
        first_filled(self.cells)
    }

    /// Colour of the top segment.
    pub open spec fn top_colour(self) -> Seq<char> {
        self.cells[self.top_pos() as int]->0
    }

    /// Number of cells in the top segment.
    pub open spec fn top_block(self) -> nat {
        run_from(self.cells, self.top_pos() as int, self.top_colour())
    }

    /// `m` may take liquid out of this tube.
    pub open spec fn can_pour_from(self, m: Move) -> bool {
        &&& self.number == m.tube_from
        &&& self.has_top()
        &&& self.top_pos() + m.quantity <= TUBE_SIZE
        &&& forall|i: int|
            self.top_pos() <= i < self.top_pos() + m.quantity ==> i < self.cells.len()
                && #[trigger] self.cells[i] == Some(m.colour@)
    }

    /// `m` may pour liquid into this tube.
    pub open spec fn can_pour_into(self, m: Move) -> bool {
        &&& self.number == m.tube_to
        &&& if self.has_top() {
            self.top_colour() == m.colour@ && m.quantity <= self.top_pos()
        } else {
            m.quantity <= TUBE_SIZE
        }
    }

    /// The index just below where poured liquid lands.
    pub open spec fn fill_end(self) -> int {
        if self.has_top() {
            self.top_pos() as int
        } else {
            TUBE_SIZE as int
        }
    }

    /// The tube after `m` has taken liquid out of it.
    pub open spec fn poured_from(self, m: Move) -> TubeView {
        TubeView { cells: drained(self.cells, m.colour@, m.quantity as nat), number: self.number }
    }

    /// The tube after `m` has poured liquid into it.
    pub open spec fn poured_into(self, m: Move) -> TubeView {
        TubeView {
            cells: set_range(
                self.cells,
                self.fill_end() - m.quantity,
                self.fill_end(),
                Some(m.colour@),
            ),
            number: self.number,
        }
    }

    /// Every cell holds the same thing.
    pub open spec fn is_uniform(self) -> bool {
        forall|i: int, j: int|
            0 <= i < self.cells.len() && 0 <= j < self.cells.len() ==> #[trigger] self.cells[i]
                == #[trigger] self.cells[j]
    }
}

pub proof fn lemma_first_filled(cells: Seq<Option<Seq<char>>>)
    ensures
        first_filled(cells) <= cells.len(),
        forall|j: int| 0 <= j < first_filled(cells) ==> #[trigger] cells[j] is None,
        first_filled(cells) < cells.len() ==> cells[first_filled(cells) as int] is Some,
    decreases cells.len(),
{
    if cells.len() > 0 && cells[0] is None {
        lemma_first_filled(cells.drop_first());
        assert forall|j: int| 0 <= j < first_filled(cells) implies #[trigger] cells[j] is None by {
            if j > 0 {
                assert(cells[j] == cells.drop_first()[j - 1]);
            }
        }
    }
}

/// The first filled cell is at `p` when all cells before it are empty.
pub proof fn lemma_first_filled_at(cells: Seq<Option<Seq<char>>>, p: int)
    requires
        0 <= p <= cells.len(),
        forall|j: int| 0 <= j < p ==> #[trigger] cells[j] is None,
        p < cells.len() ==> cells[p] is Some,
    ensures
        first_filled(cells) == p,
    decreases cells.len(),
{
    if cells.len() > 0 && p > 0 {
        assert(cells[0] is None);
        let d = cells.drop_first();
        assert forall|j: int| 0 <= j < p - 1 implies #[trigger] d[j] is None by {
            assert(d[j] == cells[j + 1]);
        }
        lemma_first_filled_at(d, p - 1);
    }
}

pub proof fn lemma_run_from(cells: Seq<Option<Seq<char>>>, start: int, c: Seq<char>)
    requires
        0 <= start <= cells.len(),
    ensures
        start + run_from(cells, start, c) <= cells.len(),
        forall|i: int|
            start <= i < start + run_from(cells, start, c) ==> #[trigger] cells[i] == Some(c),
        start + run_from(cells, start, c) < cells.len() ==> cells[start
            + run_from(cells, start, c)] != Some(c),
    decreases cells.len() - start,
{
    if start < cells.len() && cells[start] == Some(c) {
        lemma_run_from(cells, start + 1, c);
    }
}

/// On a tube that passes `can_pour_from`, pouring out empties exactly the
/// `q` cells of the top segment that lie nearest the mouth.
pub proof fn lemma_drained_range(cells: Seq<Option<Seq<char>>>, p: int, c: Seq<char>, q: nat)
    requires
        0 <= p,
        p + q <= cells.len(),
        forall|j: int| 0 <= j < p ==> #[trigger] cells[j] is None,
        forall|j: int| p <= j < p + q ==> #[trigger] cells[j] == Some(c),
    ensures
        drained(cells, c, q) == set_range(cells, p, p + q, None),
    decreases cells.len(),
{
    if q == 0 {
        assert(set_range(cells, p, p + q, None) =~= cells);
    } else {
        let d = cells.drop_first();
        if p > 0 {
            assert(cells[0] is None);
            assert forall|j: int| 0 <= j < p - 1 implies #[trigger] d[j] is None by {
                assert(d[j] == cells[j + 1]);
            }
            assert forall|j: int| p - 1 <= j < p - 1 + q implies #[trigger] d[j] == Some(c) by {
                assert(d[j] == cells[j + 1]);
            }
            lemma_drained_range(d, p - 1, c, q);
            assert(drained(cells, c, q) =~= set_range(cells, p, p + q, None));
        } else {
            assert(cells[0] == Some(c));
            assert forall|j: int| 0 <= j < q - 1 implies #[trigger] d[j] == Some(c) by {
                assert(d[j] == cells[j + 1]);
            }
            lemma_drained_range(d, 0, c, (q - 1) as nat);
            assert(drained(cells, c, q) =~= set_range(cells, p, p + q, None));
        }
    }
}

/// The top segment of a tube: its colour, the position of its first cell
/// and the number of its cells.
pub struct ColourPos {
    pub colour: String,
    pub pos: usize,
    pub block_size: usize,
}

/// A tube and its index in the game.
pub struct Tube {
    pub contents: Vec<Option<String>>,
    pub tube_number: usize,
}

impl View for Tube {
    type V = TubeView;

    open spec fn view(&self) -> TubeView {
        TubeView {
            cells: self.contents@.map_values(|c: Option<String>| cell_view(c)),
            number: self.tube_number,
        }
    }
}

impl Clone for Tube {
    fn clone(&self) -> (r: Self)
        ensures
            r@ == self@,
    {
        let mut contents: Vec<Option<String>> = Vec::new();
        let mut i: usize = 0;
        while i < self.contents.len()
            invariant
                i <= self.contents.len(),
                contents@.len() == i,
                forall|j: int| 0 <= j < i ==> #[trigger] contents@[j] == self.contents@[j],
            decreases self.contents.len() - i,
        {
            let c = match &self.contents[i] {
                Some(s) => Some(s.clone()),
                None => None,
            };
            contents.push(c);
            i = i + 1;
        }
        let r = Tube { contents, tube_number: self.tube_number };
        assert(r@.cells =~= self@.cells);
        r
    }
}

/// The two strings hold the same text.
pub fn same_text(a: &String, b: &String) -> (r: bool)
    ensures
        r == (a@ == b@),
{
    *a == *b
}

/// The two cells hold the same thing.
pub fn same_cell(a: &Option<String>, b: &Option<String>) -> (r: bool)
    ensures
        r == (cell_view(*a) == cell_view(*b)),
{
    match (a, b) {
        (Some(x), Some(y)) => same_text(x, y),
        (None, None) => true,
        _ => false,
    }
}


/// The name of what a cell holds: its colour, or `empty`.
pub open spec fn cell_name(c: Option<Seq<char>>) -> Seq<char> {
    match c {
        Some(x) => x,
        None => "empty"@,
    }
}

/// The description of a tube: the names of its cells from the mouth down,
/// separated by `", "`.
pub open spec fn describe(cells: Seq<Option<Seq<char>>>) -> Seq<char>
    decreases cells.len(),
{
    if cells.len() == 0 {
        Seq::empty()
    } else if cells.len() == 1 {
        cell_name(cells[0])
    } else {
        describe(cells.drop_last()) + ", "@ + cell_name(cells.last())
    }
}

/// The text of a tube: its number counted from 1, then its description in
/// parentheses.
pub open spec fn tube_text(t: TubeView) -> Seq<char> {
    decimal((t.number + 1) as nat) + ": ("@ + describe(t.cells) + ")"@
}

/// The cell that one comma-separated token of a tube description stands for.
pub open spec fn token_cell(tok: Seq<char>) -> Option<Seq<char>> {
    let n = lower_of(trim_spec(tok));
    if n == "empty"@ || n.len() == 0 {
        None
    } else {
        Some(n)
    }
}

/// The cells that a tube description stands for: one per comma-separated
/// token, after empty cells at the mouth that bring a short description up to
/// `TUBE_SIZE` cells.
pub open spec fn parse_cells(s: Seq<char>) -> Seq<Option<Seq<char>>> {
    let toks = split_spec(s, ',');
    let pad: nat = if toks.len() < TUBE_SIZE {
        (TUBE_SIZE - toks.len()) as nat
    } else {
        0
    };
    Seq::new(pad, |i: int| None).add(toks.map_values(|t: Seq<char>| token_cell(t)))
}

/// The cell that one entry of a list of colour names stands for: a name is
/// read as a token of a description is.
pub open spec fn entry_cell(c: Option<Seq<char>>) -> Option<Seq<char>> {
    match c {
        None => None,
        Some(x) => token_cell(x),
    }
}

impl Tube {
    /// Builds tube `tube_number` from a description such as
    /// `"red, blue, empty"`: tokens are trimmed and lower-cased, `empty` and
    /// blank tokens are empty cells, and a description of fewer than
    /// `TUBE_SIZE` tokens is padded with empty cells at the mouth.
    pub fn from_string(string_colours: String, tube_number: usize) -> (r: Tube)
        ensures
            r@ == (TubeView { cells: parse_cells(string_colours@), number: tube_number }),
    {
        let toks = split_on(string_colours.as_str(), ',');
        let ghost spec_toks = split_spec(string_colours@, ',');
        let mut colours: Vec<Option<String>> = Vec::new();
        let mut k: usize = toks.len();
        while k < TUBE_SIZE
            invariant
                toks.len() <= k <= TUBE_SIZE || (k == toks.len() && k >= TUBE_SIZE),
                colours@.len() == k - toks.len(),
                forall|j: int| 0 <= j < colours@.len() ==> #[trigger] colours@[j] is None,
            decreases TUBE_SIZE - k,
        {
            colours.push(None);
            k = k + 1;
        }
        let ghost pad = colours@.len();
        let empty_word = "empty".to_owned();
        let mut i: usize = 0;
        while i < toks.len()
            invariant
                toks@.len() == spec_toks.len(),
                forall|j: int| 0 <= j < toks@.len() ==> #[trigger] toks@[j]@ == spec_toks[j],
                empty_word@ == "empty"@,
                i <= toks.len(),
                colours@.len() == pad + i,
                forall|j: int| 0 <= j < pad ==> #[trigger] cell_view(colours@[j]) is None,
                forall|j: int|
                    0 <= j < i ==> #[trigger] cell_view(colours@[pad + j]) == token_cell(
                        spec_toks[j],
                    ),
            decreases toks.len() - i,
        {
            let norm = lowercase(trim_text(toks[i].as_str()));
            if same_text(&norm, &empty_word) || norm.unicode_len() == 0 {
                colours.push(None);
            } else {
                colours.push(Some(norm));
            }
            i = i + 1;
        }
        let r = Tube { contents: colours, tube_number };
        proof {
            let pc = parse_cells(string_colours@);
            assert(r@.cells.len() == pc.len());
            assert forall|j: int| 0 <= j < pc.len() implies #[trigger] r@.cells[j] == pc[j] by {
                if j >= pad {
                    assert(r@.cells[j] == cell_view(colours@[pad + (j - pad)]));
                }
            }
            assert(r@.cells =~= pc);
        }
        r
    }

    /// Builds tube `tube_number` from a list of cells: names are trimmed and
    /// lower-cased, and the name `empty` and blank names are empty cells.
    pub fn from_string_vec(colours: Vec<Option<String>>, tube_number: usize) -> (r: Tube)
        ensures
            r@ == (TubeView {
                cells: colours@.map_values(|c: Option<String>| entry_cell(cell_view(c))),
                number: tube_number,
            }),
    {
        let empty_word = "empty".to_owned();
        let mut contents: Vec<Option<String>> = Vec::new();
        let mut i: usize = 0;
        while i < colours.len()
            invariant
                empty_word@ == "empty"@,
                i <= colours.len(),
                contents@.len() == i,
                forall|j: int|
                    0 <= j < i ==> #[trigger] cell_view(contents@[j]) == entry_cell(
                        cell_view(colours@[j]),
                    ),
            decreases colours.len() - i,
        {
            match &colours[i] {
                None => contents.push(None),
                Some(colour) => {
                    let colour = lowercase(trim_text(colour.as_str()));
                    if same_text(&colour, &empty_word) || colour.unicode_len() == 0 {
                        contents.push(None);
                    } else {
                        contents.push(Some(colour));
                    }
                },
            }
            i = i + 1;
        }
        let r = Tube { contents, tube_number };
        assert(r@.cells =~= colours@.map_values(
            |c: Option<String>| entry_cell(cell_view(c)),
        ));
        r
    }

    /// Length of the run of cells holding `colour` from `start` on.
    fn get_block_size(&self, start: usize, colour: &String) -> (r: usize)
        requires
            start <= self.contents.len(),
        ensures
            r == run_from(self@.cells, start as int, colour@),
    {
        let mut block_size: usize = 0;
        let mut idx: usize = start;
        while idx < self.contents.len()
            invariant
                start <= idx <= self.contents.len(),
                block_size == idx - start,
                run_from(self@.cells, start as int, colour@) == block_size + run_from(
                    self@.cells,
                    idx as int,
                    colour@,
                ),
            decreases self.contents.len() - idx,
        {
            match &self.contents[idx] {
                Some(col) => {
                    if same_text(col, colour) {
                        block_size = block_size + 1;
                    } else {
                        return block_size;
                    }
                },
                None => return block_size,
            }
            idx = idx + 1;
        }
        block_size
    }

    /// The top segment: the first filled cell from the mouth, its colour and
    /// the length of the run of that colour starting there. `None` when the
    /// tube is empty.
    pub fn get_top_colour(&self) -> (r: Option<ColourPos>)
        ensures
            match r {
                None => !self@.has_top(),
                Some(cp) => {
                    &&& self@.has_top()
                    &&& cp.pos == self@.top_pos()
                    &&& cp.colour@ == self@.top_colour()
                    &&& cp.block_size == self@.top_block()
                },
            },
    {
        let mut pos: usize = 0;
        while pos < self.contents.len()
            invariant
                pos <= self.contents.len(),
                forall|j: int| 0 <= j < pos ==> #[trigger] self@.cells[j] is None,
            decreases self.contents.len() - pos,
        {
            match &self.contents[pos] {
                Some(col) => {
                    proof {
                        lemma_first_filled_at(self@.cells, pos as int);
                    }
                    let block_size = self.get_block_size(pos, col);
                    return Some(ColourPos { colour: col.clone(), pos, block_size });
                },
                None => {},
            }
            pos = pos + 1;
        }
        proof {
            lemma_first_filled_at(self@.cells, pos as int);
        }
        None
    }

    /// This tube is the source of `a_move`, has a top segment, and the
    /// `quantity` cells from the top segment's position on lie within the
    /// tube and hold the move's colour.
    pub fn is_valid_move_from(&self, a_move: &Move) -> (r: bool)
        ensures
            r == self@.can_pour_from(*a_move),
    {
        if self.tube_number != a_move.tube_from {
            return false;
        }
        let start = match self.get_top_colour() {
            Some(col_pos) => col_pos.pos,
            None => return false,
        };
        if a_move.quantity > TUBE_SIZE || start > TUBE_SIZE - a_move.quantity {
            return false;
        }
        let end = start + a_move.quantity;
        let mut idx: usize = start;
        while idx < end
            invariant
                start <= idx <= end,
                start == self@.top_pos(),
                end == start + a_move.quantity,
                forall|i: int|
                    start <= i < idx ==> i < self@.cells.len() && #[trigger] self@.cells[i] == Some(
                        a_move.colour@,
                    ),
            decreases end - idx,
        {
            if idx >= self.contents.len() {
                return false;
            }
            proof {
                assert(self@.cells[idx as int] == cell_view(self.contents@[idx as int]));
            }
            match &self.contents[idx] {
                Some(col) => {
                    if !same_text(col, &a_move.colour) {
                        return false;
                    }
                },
                None => return false,
            }
            idx = idx + 1;
        }
        true
    }

    /// This tube is the destination of `a_move`, and either its top segment
    /// has the move's colour with room for `quantity` cells above it, or it is
    /// empty and `quantity` is at most `TUBE_SIZE`.
    pub fn is_valid_move_to(&self, a_move: &Move) -> (r: bool)
        ensures
            r == self@.can_pour_into(*a_move),
    {
        if self.tube_number != a_move.tube_to {
            return false;
        }
        match self.get_top_colour() {
            Some(top_col) => same_text(&top_col.colour, &a_move.colour) && a_move.quantity
                <= top_col.pos,
            None => a_move.quantity <= TUBE_SIZE,
        }
    }

    /// Empties up to `quantity` cells of the move's colour, from the mouth
    /// down; empty cells are passed over, and a cell of another colour stops
    /// the pour. On a tube that passes `is_valid_move_from` this empties the
    /// first `quantity` cells of the top segment.
    pub fn pour_from(&mut self, a_move: &Move)
        ensures
            final(self)@ == old(self)@.poured_from(*a_move),
            final(self).contents.len() == old(self).contents.len(),
            old(self)@.can_pour_from(*a_move) ==> final(self)@.cells == set_range(
                old(self)@.cells,
                old(self)@.top_pos() as int,
                old(self)@.top_pos() + a_move.quantity,
                None,
            ),
    {
        let ghost s0 = self@.cells;
        let ghost c = a_move.colour@;
        let mut qty = a_move.quantity;
        let mut i: usize = 0;
        proof {
            assert(s0.skip(0) =~= s0);
            assert(self@.cells.take(0).add(s0) =~= s0);
        }
        loop
            invariant
                self.tube_number == old(self).tube_number,
                self.contents.len() == s0.len(),
                s0 == old(self)@.cells,
                c == a_move.colour@,
                i <= s0.len(),
                self@.cells.skip(i as int) == s0.skip(i as int),
                forall|j: int| 0 <= j < i ==> #[trigger] self@.cells[j] is None,
                drained(s0, c, a_move.quantity as nat) == self@.cells.take(i as int).add(
                    drained(s0.skip(i as int), c, qty as nat),
                ),
            ensures
                self.tube_number == old(self).tube_number,
                self.contents.len() == s0.len(),
                self@.cells == drained(s0, c, a_move.quantity as nat),
            decreases s0.len() - i,
        {
            if i == self.contents.len() || qty == 0 {
                proof {
                    assert(self@.cells.take(i as int).add(self@.cells.skip(i as int))
                        =~= self@.cells);
                }
                break ;
            }
            let ghost rest = s0.skip(i as int);
            let ghost before = self@.cells;
            proof {
                assert(rest[0] == s0[i as int]);
                assert(rest.drop_first() =~= s0.skip(i + 1));
                assert(self@.cells[i as int] == s0[i as int]) by {
                    assert(self@.cells.skip(i as int)[0] == self@.cells[i as int]);
                }
                assert(self@.cells[i as int] == cell_view(self.contents@[i as int]));
            }
            let matched = match &self.contents[i] {
                Some(x) => {
                    if same_text(x, &a_move.colour) {
                        true
                    } else {
                        proof {
                            assert(self@.cells.take(i as int).add(rest) =~= self@.cells);
                        }
                        break ;
                    }
                },
                None => false,
            };
            if matched {
                self.contents.set(i, None);
                qty = qty - 1;
            }
            proof {
                assert(self@.cells =~= before.update(i as int, None));
            }
            i = i + 1;
            proof {
                assert(self@.cells.skip(i as int) =~= s0.skip(i as int));
                assert(self@.cells.take(i as int) =~= self@.cells.take(i - 1).push(None));
            }
        }
        proof {
            if old(self)@.can_pour_from(*a_move) {
                lemma_first_filled(s0);
                let p = old(self)@.top_pos() as int;
                if a_move.quantity > 0 {
                    assert(p <= p + a_move.quantity - 1 < p + a_move.quantity);
                    assert(s0[p + a_move.quantity - 1] == Some(c));
                }
                lemma_drained_range(s0, p, c, a_move.quantity as nat);
            }
        }
    }

    /// Fills `quantity` cells with the move's colour directly above the top
    /// segment, or at the bottom of an empty tube.
    pub fn pour_to(&mut self, a_move: &Move)
        requires
            old(self)@.has_top() ==> a_move.quantity <= old(self)@.top_pos(),
            !old(self)@.has_top() ==> a_move.quantity <= TUBE_SIZE <= old(self).contents.len(),
        ensures
            final(self)@ == old(self)@.poured_into(*a_move),
            final(self).contents.len() == old(self).contents.len(),
    {
        let top_col = self.get_top_colour();
        let end = match top_col {
            Some(the_top) => the_top.pos,
            None => TUBE_SIZE,
        };
        proof {
            lemma_first_filled(self@.cells);
        }
        let start = end - a_move.quantity;
        let ghost s0 = self@.cells;
        let mut idx: usize = start;
        while idx < end
            invariant
                start <= idx <= end,
                end <= s0.len(),
                end == old(self)@.fill_end(),
                start == end - a_move.quantity,
                s0 == old(self)@.cells,
                self.contents.len() == s0.len(),
                self.tube_number == old(self).tube_number,
                self@.cells == set_range(s0, start as int, idx as int, Some(a_move.colour@)),
            decreases end - idx,
        {
            let ghost before = self@.cells;
            self.contents.set(idx, Some(a_move.colour.clone()));
            proof {
                assert(self@.cells =~= before.update(idx as int, Some(a_move.colour@)));
            }
            idx = idx + 1;
            proof {
                assert(self@.cells =~= set_range(
                    s0,
                    start as int,
                    idx as int,
                    Some(a_move.colour@),
                ));
            }
        }
    }

    /// Every cell holds the same thing: one colour throughout, or nothing.
    pub fn is_tube_all_same_contents(&self) -> (r: bool)
        ensures
            r == self@.is_uniform(),
    {
        if self.contents.len() == 0 {
            return true;
        }
        let first = &self.contents[0];
        let mut i: usize = 1;
        while i < self.contents.len()
            invariant
                1 <= i <= self.contents.len(),
                *first == self.contents@[0],
                forall|j: int| 0 <= j < i ==> #[trigger] self@.cells[j] == self@.cells[0],
            decreases self.contents.len() - i,
        {
            proof {
                assert(self@.cells[i as int] == cell_view(self.contents@[i as int]));
                assert(self@.cells[0] == cell_view(self.contents@[0]));
            }
            if !same_cell(&self.contents[i], first) {
                return false;
            }
            i = i + 1;
        }
        true
    }

    /// The description of this tube, such as `"empty, red, blue, blue"`; it
    /// can be read back by `from_string`.
    pub fn description(&self) -> (r: String)
        ensures
            r@ == describe(self@.cells),
    {
        let ghost cells = self@.cells;
        let mut out = String::new();
        let mut i: usize = 0;
        while i < self.contents.len()
            invariant
                cells == self@.cells,
                i <= cells.len(),
                out@ == describe(cells.take(i as int)),
            decreases cells.len() - i,
        {
            proof {
                assert(cells[i as int] == cell_view(self.contents@[i as int]));
                let t = cells.take(i + 1);
                assert(t.drop_last() =~= cells.take(i as int));
                assert(t.last() == cells[i as int]);
            }
            if i > 0 {
                out.append(", ");
            }
            match &self.contents[i] {
                Some(c) => out.append(c.as_str()),
                None => out.append("empty"),
            }
            proof {
                if i == 0 {
                    assert(describe(cells.take(0)) == Seq::<char>::empty());
                    assert(out@ =~= cell_name(cells[0]));
                }
            }
            i = i + 1;
        }
        assert(cells.take(i as int) =~= cells);
        out
    }

    /// The text of this tube, such as `"1: (empty, red, blue, blue)"`.
    pub fn to_text(&self) -> (r: String)
        ensures
            r@ == tube_text(self@),
    {
        let mut out = decimal_text(self.tube_number as u128 + 1);
        out.append(": (");
        let d = self.description();
        out.append(d.as_str());
        out.append(")");
        out
    }
}

/// The number of filled cells among the first `n`.
pub open spec fn filled_upto(cells: Seq<Option<Seq<char>>>, n: int) -> nat
    decreases n,
{
    if n <= 0 {
        0
    } else {
        filled_upto(cells, n - 1) + if cells[n - 1] is Some {
            1nat
        } else {
            0nat
        }
    }
}

/// The number of filled cells.
pub open spec fn filled_count(cells: Seq<Option<Seq<char>>>) -> nat {
    filled_upto(cells, cells.len() as int)
}

/// Filling `[lo, hi)` where every cell was empty, or emptying it where every
/// cell was filled, changes the count of filled cells by `hi - lo`.
pub proof fn lemma_set_range_count(
    s: Seq<Option<Seq<char>>>,
    lo: int,
    hi: int,
    v: Option<Seq<char>>,
    n: int,
)
    requires
        0 <= lo <= hi <= s.len(),
        0 <= n <= s.len(),
        forall|i: int| lo <= i < hi ==> (#[trigger] s[i] is Some) != (v is Some),
    ensures
        ({
            let k = if n <= lo {
                0
            } else if n <= hi {
                n - lo
            } else {
                hi - lo
            };
            if v is Some {
                filled_upto(set_range(s, lo, hi, v), n) == filled_upto(s, n) + k
            } else {
                filled_upto(set_range(s, lo, hi, v), n) == filled_upto(s, n) - k
            }
        }),
    decreases n,
{
    if n > 0 {
        lemma_set_range_count(s, lo, hi, v, n - 1);
    }
}

/// Conservation of liquid: a pour that the source may give and the
/// destination may take moves `quantity` filled cells from one tube to the
/// other, and the two tubes together hold as many filled cells as before.
pub proof fn lemma_pour_conserves_liquid(a: TubeView, b: TubeView, m: Move)
    requires
        a.cells.len() == TUBE_SIZE,
        b.cells.len() == TUBE_SIZE,
        a.can_pour_from(m),
        b.can_pour_into(m),
    ensures
        filled_count(a.poured_from(m).cells) + m.quantity == filled_count(a.cells),
        filled_count(b.poured_into(m).cells) == filled_count(b.cells) + m.quantity,
        filled_count(a.poured_from(m).cells) + filled_count(b.poured_into(m).cells)
            == filled_count(a.cells) + filled_count(b.cells),
{
    let p = a.top_pos() as int;
    let q = m.quantity as int;
    lemma_first_filled(a.cells);
    lemma_first_filled(b.cells);
    if q > 0 {
        assert(p <= p + q - 1 < p + q);
        assert(a.cells[p + q - 1] == Some(m.colour@));
    }
    lemma_drained_range(a.cells, p, m.colour@, m.quantity as nat);
    assert forall|i: int| p <= i < p + q implies (#[trigger] a.cells[i] is Some) != (None::<
        Seq<char>,
    > is Some) by {
        assert(a.cells[i] == Some(m.colour@));
    }
    lemma_set_range_count(a.cells, p, p + q, None, a.cells.len() as int);
    let e = b.fill_end();
    assert forall|i: int| e - q <= i < e implies (#[trigger] b.cells[i] is Some) != (Some(
        m.colour@,
    ) is Some) by {}
    lemma_set_range_count(b.cells, e - q, e, Some(m.colour@), b.cells.len() as int);
}

/// A colour name as a description writes it: not blank, not the word
/// `empty`, no comma, no white space at either end.
pub open spec fn is_plain_name(c: Seq<char>) -> bool {
    &&& c.len() > 0
    &&& c != "empty"@
    &&& !c.contains(',')
    &&& !is_white_space(c[0])
    &&& !is_white_space(c.last())
}

/// The comma-separated tokens of a description: the first name, then each
/// further name after a space.
pub open spec fn description_tokens(cells: Seq<Option<Seq<char>>>) -> Seq<Seq<char>> {
    Seq::new(
        cells.len(),
        |i: int|
            if i == 0 {
                cell_name(cells[0])
            } else {
                seq![' '] + cell_name(cells[i])
            },
    )
}

proof fn lemma_empty_word()
    ensures
        "empty"@ == seq!['e', 'm', 'p', 't', 'y'],
        ", "@ == seq![',', ' '],
{
    reveal_strlit("empty");
    reveal_strlit(", ");
}

proof fn lemma_name_plain(c: Option<Seq<char>>)
    requires
        c is Some ==> is_plain_name(c->0),
    ensures
        cell_name(c).len() > 0,
        !cell_name(c).contains(','),
        !is_white_space(cell_name(c)[0]),
        !is_white_space(cell_name(c).last()),
{
    lemma_empty_word();
    if c is None {
        assert(!"empty"@.contains(',')) by {
            if "empty"@.contains(',') {
                let k = choose|k: int| 0 <= k < 5 && "empty"@[k] == ',';
            }
        }
    }
}

proof fn lemma_split_description(cells: Seq<Option<Seq<char>>>)
    requires
        cells.len() > 0,
        forall|i: int| 0 <= i < cells.len() && (#[trigger] cells[i]) is Some ==> is_plain_name(
            cells[i]->0,
        ),
    ensures
        split_spec(describe(cells), ',') == description_tokens(cells),
    decreases cells.len(),
{
    lemma_empty_word();
    lemma_name_plain(cells.last());
    if cells.len() == 1 {
        lemma_name_plain(cells[0]);
        lemma_split_single(cell_name(cells[0]), ',');
        assert(description_tokens(cells) =~= seq![cell_name(cells[0])]);
    } else {
        let d = cells.drop_last();
        assert forall|i: int| 0 <= i < d.len() && (#[trigger] d[i]) is Some implies is_plain_name(
            d[i]->0,
        ) by {
            assert(d[i] == cells[i]);
        }
        lemma_split_description(d);
        let y = seq![' '] + cell_name(cells.last());
        assert(!y.contains(',')) by {
            if y.contains(',') {
                let k = choose|k: int| 0 <= k < y.len() && y[k] == ',';
                assert(cell_name(cells.last())[k - 1] == ',');
            }
        }
        assert(describe(cells) =~= describe(d).push(',') + y);
        lemma_split_append(describe(d), y, ',');
        assert(description_tokens(cells) =~= description_tokens(d).push(y));
    }
}

/// Trimming a name with a space in front gives the name.
proof fn lemma_trim_token(c: Seq<char>, lead: bool)
    requires
        c.len() > 0,
        !is_white_space(c[0]),
        !is_white_space(c.last()),
    ensures
        trim_spec(if lead {
            seq![' '] + c
        } else {
            c
        }) == c,
{
    let t = if lead {
        seq![' '] + c
    } else {
        c
    };
    if lead {
        assert(is_white_space(t[0]));
        assert(t.drop_first() =~= c);
    }
    assert(trim_start_spec(c) == c);
    if lead {
        assert(trim_start_spec(t) == trim_start_spec(t.drop_first()));
    }
    assert(trim_start_spec(t) == c);
    assert(trim_end_spec(c) == c);
}

/// Round trip of descriptions: reading back the description of `TUBE_SIZE` cells
/// whose colours are plain names, and whose names (the word `empty` too) are
/// already in lower case, gives the same cells, and so the same description
/// and the same text.
pub proof fn lemma_description_round_trip(cells: Seq<Option<Seq<char>>>)
    requires
        cells.len() == TUBE_SIZE,
        forall|i: int| 0 <= i < cells.len() && (#[trigger] cells[i]) is Some ==> is_plain_name(
            cells[i]->0,
        ),
        forall|i: int|
            0 <= i < cells.len() ==> lower_of(cell_name(#[trigger] cells[i])) == cell_name(
                cells[i],
            ),
    ensures
        parse_cells(describe(cells)) == cells,
        describe(parse_cells(describe(cells))) == describe(cells),
        forall|n: usize|
            tube_text(TubeView { cells: parse_cells(describe(cells)), number: n }) == #[trigger] tube_text(
                TubeView { cells, number: n },
            ),
{
    lemma_empty_word();
    lemma_split_description(cells);
    let toks = split_spec(describe(cells), ',');
    assert forall|i: int| 0 <= i < cells.len() implies token_cell(toks[i]) == cells[i] by {
        lemma_name_plain(cells[i]);
        lemma_trim_token(cell_name(cells[i]), i != 0);
        assert(trim_spec(toks[i]) == cell_name(cells[i]));
        if cells[i] is None {
            assert(lower_of(trim_spec(toks[i])) == "empty"@);
        } else {
            assert(lower_of(trim_spec(toks[i])) == cells[i]->0);
        }
    }
    assert(parse_cells(describe(cells)) =~= cells);
}

/// The number of cells holding `c` among the first `n` cells.
pub open spec fn cells_with(cells: Seq<Option<Seq<char>>>, c: Seq<char>, n: int) -> nat
    decreases n,
{
    if n <= 0 {
        0
    } else {
        cells_with(cells, c, n - 1) + if cells[n - 1] == Some(c) {
            1nat
        } else {
            0nat
        }
    }
}

/// Setting `[lo, hi)` to `v` where every cell held `w` moves the count of
/// `c` by the length of the range that lies among the first `n` cells.
pub proof fn lemma_set_range_colour_count(
    s: Seq<Option<Seq<char>>>,
    lo: int,
    hi: int,
    w: Option<Seq<char>>,
    v: Option<Seq<char>>,
    c: Seq<char>,
    n: int,
)
    requires
        0 <= lo <= hi <= s.len(),
        0 <= n <= s.len(),
        forall|i: int| lo <= i < hi ==> #[trigger] s[i] == w,
    ensures
        ({
            let k: nat = if n <= lo {
                0
            } else if n <= hi {
                (n - lo) as nat
            } else {
                (hi - lo) as nat
            };
            cells_with(set_range(s, lo, hi, v), c, n) + (if w == Some(c) {
                k
            } else {
                0
            }) == cells_with(s, c, n) + (if v == Some(c) {
                k
            } else {
                0
            })
        }),
    decreases n,
{
    if n > 0 {
        lemma_set_range_colour_count(s, lo, hi, w, v, c, n - 1);
    }
}

/// Pouring out of a tube that may give `m` removes `quantity` cells of the
/// move's colour and no other.
pub proof fn lemma_poured_from_count(a: TubeView, m: Move, c: Seq<char>)
    requires
        a.can_pour_from(m),
    ensures
        cells_with(a.poured_from(m).cells, c, a.cells.len() as int) + (if m.colour@ == c {
            m.quantity as nat
        } else {
            0
        }) == cells_with(a.cells, c, a.cells.len() as int),
        a.poured_from(m).cells.len() == a.cells.len(),
{
    let p = a.top_pos() as int;
    let q = m.quantity as int;
    lemma_first_filled(a.cells);
    if q > 0 {
        assert(p <= p + q - 1 < p + q);
        assert(a.cells[p + q - 1] == Some(m.colour@));
    }
    lemma_drained_range(a.cells, p, m.colour@, m.quantity as nat);
    lemma_set_range_colour_count(
        a.cells,
        p,
        p + q,
        Some(m.colour@),
        None,
        c,
        a.cells.len() as int,
    );
}

/// Pouring `quantity` cells into a tube with room for them above its top
/// segment adds that many cells of the move's colour and no other.
pub proof fn lemma_poured_into_count(b: TubeView, m: Move, c: Seq<char>)
    requires
        m.quantity <= b.fill_end() <= b.cells.len(),
    ensures
        cells_with(b.poured_into(m).cells, c, b.cells.len() as int) == cells_with(
            b.cells,
            c,
            b.cells.len() as int,
        ) + (if m.colour@ == c {
            m.quantity as nat
        } else {
            0
        }),
        b.poured_into(m).cells.len() == b.cells.len(),
{
    lemma_first_filled(b.cells);
    let e = b.fill_end();
    assert forall|i: int| e - m.quantity <= i < e implies #[trigger] b.cells[i] == None::<
        Seq<char>,
    > by {}
    lemma_set_range_colour_count(
        b.cells,
        e - m.quantity,
        e,
        None,
        Some(m.colour@),
        c,
        b.cells.len() as int,
    );
}

/// Conservation of each colour: a pour that the source may give and the
/// destination may take leaves the two tubes holding, together, as many
/// cells of every colour as before.
pub proof fn lemma_pour_conserves_colours(a: TubeView, b: TubeView, m: Move, c: Seq<char>)
    requires
        a.cells.len() == TUBE_SIZE,
        b.cells.len() == TUBE_SIZE,
        a.can_pour_from(m),
        b.can_pour_into(m),
    ensures
        cells_with(a.poured_from(m).cells, c, TUBE_SIZE as int) + cells_with(
            b.poured_into(m).cells,
            c,
            TUBE_SIZE as int,
        ) == cells_with(a.cells, c, TUBE_SIZE as int) + cells_with(b.cells, c, TUBE_SIZE as int),
{
    lemma_first_filled(b.cells);
    lemma_poured_from_count(a, m, c);
    lemma_poured_into_count(b, m, c);
}

} // verus!
