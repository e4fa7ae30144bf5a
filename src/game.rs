//! One step of play: reading an input byte as an action, and applying the
//! action to the board.
use vstd::prelude::*;

use crate::board::{
    empty_cells, empty_cells_upto, highest, lemma_empty_cells_prefix, lemma_full_grid_numbers,
    lemma_grid_stays_iff_lines_stay, line_cell, line_index, line_of, line_pos, move_gain,
    move_merges, moved_cell, open_count, slide_cells, spawned_cells, Board, Direction,
};
use crate::line::{all_numbers, can_merge, lemma_full_line_moves_iff_pair, lemma_distinct_neighbours_stay, power_of, slid};
use crate::colour::Power;
use crate::tile::{cell, cell_index, cells_wf, is_interior, on_grid, lemma_cell_of_index, Generation, Tile, BOARD_CELLS};

verus! {

/// The input byte that ends the game (ETX, as sent by Ctrl-C).
pub const END_OF_GAME_CHARACTER: u8 = 3;

/// The input byte `w`: slide up.
pub const KEY_UP: u8 = 119;

/// The input byte `a`: slide left.
pub const KEY_LEFT: u8 = 97;

/// The input byte `s`: slide down.
pub const KEY_DOWN: u8 = 115;

/// The input byte `d`: slide right.
pub const KEY_RIGHT: u8 = 100;

/// The number of tiles spawned onto a new grid.
pub const INITIAL_TILES_COUNT: u32 = 2;

/// A tile of this power or above wins the game; play still goes on.
pub const WIN_POWER: Power = 11;

/// What an input byte asks for.
#[derive(Clone, Copy, Debug, PartialEq, Eq, Structural)]
pub enum Action {
    /// Slide the tiles this way.
    Direction(Direction),
    /// Nothing: the byte is ignored.
    Continue,
    /// End the game.
    Shutdown,
}

/// Where the input bytes come from.
pub enum Input<'a> {
    /// A fixed script of bytes; its end ends the game.
    Slice(&'a [u8]),
    /// The keyboard, one byte at a time.
    Interactive,
}

/// What a step did, for the loop that drives the game.
#[derive(Clone, Copy, Debug, PartialEq, Eq, Structural)]
pub enum Outcome {
    /// Nothing changed: nothing to draw.
    Continue,
    /// The tiles moved and a new tile was spawned: draw again.
    Moved,
    /// The grid is full and no direction changes it: the game is over.
    GameOver,
    /// The player asked to stop.
    Shutdown,
}

/// The action that an input byte asks for.
pub open spec fn action_of(input: u8) -> Action {
    if input == KEY_UP {
        Action::Direction(Direction::Up)
    } else if input == KEY_LEFT {
        Action::Direction(Direction::Left)
    } else if input == KEY_RIGHT {
        Action::Direction(Direction::Right)
    } else if input == KEY_DOWN {
        Action::Direction(Direction::Down)
    } else if input == END_OF_GAME_CHARACTER {
        Action::Shutdown
    } else {
        Action::Continue
    }
}

/// Whether no slide in any of the four directions changes the grid `s`.
pub open spec fn no_move_left(s: Seq<Tile>, generation: Generation) -> bool {
    &&& slide_cells(s, Direction::Up, generation) == s
    &&& slide_cells(s, Direction::Down, generation) == s
    &&& slide_cells(s, Direction::Left, generation) == s
    &&& slide_cells(s, Direction::Right, generation) == s
}

/// What a step on the grid `s` with `open` empty cells gives for `action`:
/// the game ends only on a full grid that no direction changes.
pub open spec fn outcome_of(s: Seq<Tile>, open: nat, action: Action, generation: Generation) -> Outcome {
    match action {
        Action::Continue => Outcome::Continue,
        Action::Shutdown => Outcome::Shutdown,
        Action::Direction(d) => if slide_cells(s, d, generation) != s {
            Outcome::Moved
        } else if open == 0 && no_move_left(s, generation) {
            Outcome::GameOver
        } else {
            Outcome::Continue
        },
    }
}

/// The larger of two powers.
pub open spec fn larger(a: Power, b: Power) -> Power {
    if a > b {
        a
    } else {
        b
    }
}

/// Whether two boards hold the same state.
pub open spec fn same_state(a: Board, b: Board) -> bool {
    &&& a.tiles@ == b.tiles@
    &&& a.score == b.score
    &&& a.open_tiles == b.open_tiles
    &&& a.max_tile == b.max_tile
}

impl Action {
    /// Reads an input byte: `w`, `a`, `s` and `d` slide up, left, down and
    /// right, ETX ends the game, and any other byte is ignored.
    pub fn parse(input: u8) -> (a: Action)
        ensures
            a == action_of(input),
    {
        if input == KEY_UP {
            Action::Direction(Direction::Up)
        } else if input == KEY_LEFT {
            Action::Direction(Direction::Left)
        } else if input == KEY_RIGHT {
            Action::Direction(Direction::Right)
        } else if input == KEY_DOWN {
            Action::Direction(Direction::Down)
        } else if input == END_OF_GAME_CHARACTER {
            Action::Shutdown
        } else {
            Action::Continue
        }
    }
}

/// The action for the byte at `pos` of a script; past its end, the game
/// ends.
pub fn scripted_action(script: &[u8], pos: usize) -> (a: Action)
    ensures
        a == if pos < script@.len() {
            action_of(script@[pos as int])
        } else {
            Action::Shutdown
        },
{
    if pos < script.len() {
        Action::parse(script[pos])
    } else {
        Action::Shutdown
    }
}

impl Board {
    /// A new game: an empty grid with two tiles spawned onto it.
    pub fn new_game(generation: Generation) -> (b: Board)
        ensures
            b.wf(),
            b.score == 0,
            b.open_tiles == 14,
            1 <= b.max_tile <= 2,
            forall|r: int, c: int|
                is_interior(r, c) ==> {
                    let t = #[trigger] cell(b.tiles@, r, c);
                    t is Empty || t == Tile::Number(1, generation) || t == Tile::Number(2, generation)
                },
    {
        let mut b = Board::new();
        proof {
            assert forall|i: int| 0 <= i < BOARD_CELLS implies !(#[trigger] b.tiles@[i] is Number) by {
                lemma_cell_of_index(i);
                assert(cell(b.tiles@, i / 6, i % 6) == b.tiles@[i]);
            }
        }
        let mut n: u32 = 0;
        while n < INITIAL_TILES_COUNT
            invariant
                n <= INITIAL_TILES_COUNT,
                b.wf(),
                b.score == 0,
                b.open_tiles == 16 - n,
                n == 0 ==> b.max_tile == 0,
                n > 0 ==> 1 <= b.max_tile <= 2,
                forall|i: int|
                    0 <= i < BOARD_CELLS && #[trigger] b.tiles@[i] is Number ==> b.tiles@[i]
                        == Tile::Number(1, generation) || b.tiles@[i] == Tile::Number(2, generation),
            decreases INITIAL_TILES_COUNT - n,
        {
            let ghost before = b.tiles@;
            b.spawn_tile(generation);
            proof {
                let (index, p) = choose|index: int, p: Power|
                    0 <= index < 16 - n && (p == 1 || p == 2) && b.tiles@ == spawned_cells(
                        before,
                        index,
                        p,
                        generation,
                    );
                lemma_empty_cells_prefix(before, BOARD_CELLS as int, BOARD_CELLS as int);
                let x = empty_cells(before)[index];
                assert forall|i: int|
                    0 <= i < BOARD_CELLS && #[trigger] b.tiles@[i] is Number implies b.tiles@[i]
                        == Tile::Number(1, generation) || b.tiles@[i] == Tile::Number(2, generation) by {
                    if i != x {
                        assert(b.tiles@[i] == before[i]);
                    }
                }
            }
            n = n + 1;
        }
        assert forall|r: int, c: int| is_interior(r, c) implies {
            let t = #[trigger] cell(b.tiles@, r, c);
            t is Empty || t == Tile::Number(1, generation) || t == Tile::Number(2, generation)
        } by {
            assert(on_grid(r, c));
            assert(0 <= cell_index(r, c) < BOARD_CELLS);
        }
        b
    }

    /// Whether a tile of the winning power has been reached.
    pub fn is_won(&self) -> (r: bool)
        ensures
            r == (self.max_tile >= WIN_POWER),
    {
        self.max_tile >= WIN_POWER
    }

    /// Whether a slide toward `d` would change the grid.
    pub fn can_move(&self, d: Direction, generation: Generation) -> (r: bool)
        requires
            self.wf(),
            self.has_room(),
        ensures
            r == (slide_cells(self.tiles@, d, generation) != self.tiles@),
    {
        let mut probe = *self;
        probe.update(d, generation)
    }

    /// Applies one action: a slide that changes the grid is followed by a
    /// spawn; on a full grid that no direction changes, a slide ends the
    /// game.
    pub fn apply(&mut self, action: Action, generation: Generation) -> (o: Outcome)
        requires
            old(self).wf(),
            old(self).has_room(),
        ensures
            final(self).wf(),
            o == outcome_of(old(self).tiles@, old(self).open_tiles as nat, action, generation),
            o != Outcome::Moved ==> same_state(*final(self), *old(self)),
            o == Outcome::Moved ==> {
                let d = action->Direction_0;
                let s1 = slide_cells(old(self).tiles@, d, generation);
                &&& final(self).score == old(self).score + move_gain(old(self).tiles@, d, generation)
                &&& final(self).open_tiles == open_count(s1) - 1
                &&& final(self).open_tiles + 1 == old(self).open_tiles + move_merges(
                    old(self).tiles@,
                    d,
                    generation,
                )
                &&& exists|index: int, p: Power|
                    0 <= index < open_count(s1) && (p == 1 || p == 2) && #[trigger] spawned_cells(
                        s1,
                        index,
                        p,
                        generation,
                    ) == final(self).tiles@ && final(self).max_tile == larger(
                        larger(old(self).max_tile, highest(s1)),
                        p,
                    )
            },
    {
        match action {
            Action::Direction(d) => {
                let moved = self.update(d, generation);
                if !moved {
                    if self.has_space() {
                        Outcome::Continue
                    } else if self.can_move(Direction::Up, generation) || self.can_move(
                        Direction::Down,
                        generation,
                    ) || self.can_move(Direction::Left, generation) || self.can_move(
                        Direction::Right,
                        generation,
                    ) {
                        Outcome::Continue
                    } else {
                        Outcome::GameOver
                    }
                } else {
                    self.spawn_tile(generation);
                    Outcome::Moved
                }
            },
            Action::Continue => Outcome::Continue,
            Action::Shutdown => Outcome::Shutdown,
        }
    }
}

/// Termination: a slide ends the game exactly when the grid is full and no
/// slide in any of the four directions changes it.
pub proof fn lemma_game_over_when_stuck(b: Board, d: Direction, generation: Generation)
    requires
        b.wf(),
    ensures
        (outcome_of(b.tiles@, b.open_tiles as nat, Action::Direction(d), generation)
            == Outcome::GameOver) <==> (b.open_tiles == 0 && forall|d2: Direction| #[trigger]
            slide_cells(b.tiles@, d2, generation) == b.tiles@),
{
    let s = b.tiles@;
    if b.open_tiles == 0 && no_move_left(s, generation) {
        assert forall|d2: Direction| #[trigger] slide_cells(s, d2, generation) == s by {
            match d2 {
                Direction::Up => {},
                Direction::Down => {},
                Direction::Left => {},
                Direction::Right => {},
            }
        }
    }
    if forall|d2: Direction| #[trigger] slide_cells(s, d2, generation) == s {
        assert(slide_cells(s, Direction::Up, generation) == s);
        assert(slide_cells(s, Direction::Down, generation) == s);
        assert(slide_cells(s, Direction::Left, generation) == s);
        assert(slide_cells(s, Direction::Right, generation) == s);
        assert(slide_cells(s, d, generation) == s);
    }
}

/// Whether every playable cell of `s` holds a number and no two playable
/// neighbours, across or down, have the same power.
pub open spec fn locked(s: Seq<Tile>) -> bool {
    &&& forall|r: int, c: int| is_interior(r, c) ==> #[trigger] cell(s, r, c) is Number
    &&& forall|r: int, c: int|
        is_interior(r, c) && c < 4 ==> power_of(#[trigger] cell(s, r, c)) != power_of(
            cell(s, r, c + 1),
        )
    &&& forall|r: int, c: int|
        is_interior(r, c) && r < 4 ==> power_of(#[trigger] cell(s, r, c)) != power_of(
            cell(s, r + 1, c),
        )
}

proof fn lemma_no_empty_cell(s: Seq<Tile>, n: int)
    requires
        0 <= n <= s.len(),
        forall|i: int| 0 <= i < n ==> !(#[trigger] s[i] is Empty),
    ensures
        empty_cells_upto(s, n).len() == 0,
    decreases n,
{
    if n > 0 {
        lemma_no_empty_cell(s, n - 1);
    }
}

/// A locked grid with no open cell stays as it is under a slide toward `d`.
proof fn lemma_locked_grid_stays(s: Seq<Tile>, d: Direction, generation: Generation)
    requires
        cells_wf(s),
        locked(s),
    ensures
        slide_cells(s, d, generation) == s,
{
    assert forall|k: int| 0 <= k < 4 implies #[trigger] slid(line_of(s, d, k), generation) == line_of(
        s,
        d,
        k,
    ) by {
        let ln = line_of(s, d, k);
        assert(all_numbers(ln)) by {
            assert forall|j: int| 0 <= j < ln.len() implies #[trigger] ln[j] is Number by {
                let rc = line_cell(d, k, j);
                assert(is_interior(rc.0, rc.1));
            }
        }
        assert forall|j: int| 0 <= j < ln.len() - 1 implies power_of(#[trigger] ln[j]) != power_of(
            ln[j + 1],
        ) by {
            let rc = line_cell(d, k, j);
            let rc2 = line_cell(d, k, j + 1);
            match d {
                Direction::Left => assert(power_of(cell(s, rc.0, rc.1)) != power_of(cell(s, rc.0, rc.1 + 1))),
                Direction::Right => assert(power_of(cell(s, rc2.0, rc2.1)) != power_of(cell(s, rc2.0, rc2.1 + 1))),
                Direction::Up => assert(power_of(cell(s, rc.0, rc.1)) != power_of(cell(s, rc.0 + 1, rc.1))),
                Direction::Down => assert(power_of(cell(s, rc2.0, rc2.1)) != power_of(cell(s, rc2.0 + 1, rc2.1))),
            }
        }
        lemma_distinct_neighbours_stay(ln, generation);
    }
    assert(slide_cells(s, d, generation) =~= s) by {
        assert forall|i: int| 0 <= i < BOARD_CELLS implies slide_cells(s, d, generation)[i] == s[i] by {
            lemma_cell_of_index(i);
            let r = i / 6;
            let c = i % 6;
            if is_interior(r, c) {
                let k = line_index(d, r, c);
                assert(slid(line_of(s, d, k), generation) == line_of(s, d, k));
                assert(line_cell(d, k, line_pos(d, r, c)) == (r, c));
            }
            assert(moved_cell(s, d, generation, r, c) == cell(s, r, c));
        }
    }
}


/// A full grid on which no two neighbouring tiles, across or down, have the
/// same power has no open cell, no slide changes it, and any slide on it
/// ends the game.
pub proof fn lemma_locked_grid_is_over(b: Board, d: Direction, generation: Generation)
    requires
        b.wf(),
        locked(b.tiles@),
    ensures
        b.open_tiles == 0,
        no_move_left(b.tiles@, generation),
        outcome_of(b.tiles@, b.open_tiles as nat, Action::Direction(d), generation)
            == Outcome::GameOver,
{
    let s = b.tiles@;
    assert forall|i: int| 0 <= i < BOARD_CELLS implies !(#[trigger] s[i] is Empty) by {
        lemma_cell_of_index(i);
        assert(cell(s, i / 6, i % 6) == s[i]);
    }
    lemma_no_empty_cell(s, BOARD_CELLS as int);
    lemma_locked_grid_stays(s, Direction::Up, generation);
    lemma_locked_grid_stays(s, Direction::Down, generation);
    lemma_locked_grid_stays(s, Direction::Left, generation);
    lemma_locked_grid_stays(s, Direction::Right, generation);
    lemma_locked_grid_stays(s, d, generation);
}

/// On a full grid, a slide toward `d` changes the grid exactly when one of
/// its lines along `d` holds two neighbours that can merge: equal powers,
/// neither stamped with this move. So the game is over exactly when no such
/// pair lies along any direction.
pub proof fn lemma_full_grid_moves_iff_pair(b: Board, d: Direction, generation: Generation)
    requires
        b.wf(),
        b.open_tiles == 0,
    ensures
        (slide_cells(b.tiles@, d, generation) != b.tiles@) <==> exists|k: int, j: int|
            0 <= k < 4 && 0 <= j < 3 && #[trigger] can_merge(
                line_of(b.tiles@, d, k)[j],
                line_of(b.tiles@, d, k)[j + 1],
                generation,
            ),
{
    let s = b.tiles@;
    lemma_full_grid_numbers(s);
    lemma_grid_stays_iff_lines_stay(s, d, generation);
    assert forall|k: int| 0 <= k < 4 implies #[trigger] all_numbers(line_of(s, d, k)) by {
        let ln = line_of(s, d, k);
        assert forall|j: int| 0 <= j < ln.len() implies #[trigger] ln[j] is Number by {
            let rc = line_cell(d, k, j);
            assert(is_interior(rc.0, rc.1));
        }
    }
    if slide_cells(s, d, generation) != s {
        let k = choose|k: int| 0 <= k < 4 && #[trigger] slid(line_of(s, d, k), generation) != line_of(s, d, k);
        assert(all_numbers(line_of(s, d, k)));
        lemma_full_line_moves_iff_pair(line_of(s, d, k), generation);
        let j = choose|j: int| 0 <= j < 3 && #[trigger] can_merge(line_of(s, d, k)[j], line_of(s, d, k)[j + 1], generation);
        assert(can_merge(line_of(s, d, k)[j], line_of(s, d, k)[j + 1], generation));
    }
    if exists|k: int, j: int| 0 <= k < 4 && 0 <= j < 3 && #[trigger] can_merge(
        line_of(s, d, k)[j],
        line_of(s, d, k)[j + 1],
        generation,
    ) {
        let (k, j) = choose|k: int, j: int| 0 <= k < 4 && 0 <= j < 3 && #[trigger] can_merge(
            line_of(s, d, k)[j],
            line_of(s, d, k)[j + 1],
            generation,
        );
        assert(all_numbers(line_of(s, d, k)));
        lemma_full_line_moves_iff_pair(line_of(s, d, k), generation);
        assert(slid(line_of(s, d, k), generation) != line_of(s, d, k));
    }
}

} // verus!
