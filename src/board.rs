//! The game state: the grid, the score, the count of open cells and the
//! highest power seen, with the move and spawn operations on it.
use vstd::prelude::*;
use vstd::arithmetic::power2::{pow2, lemma2_to64, lemma_pow2_strictly_increases, lemma_pow2_pos};
use vstd::bits::lemma_u64_shl_is_mul;

use crate::colour::Power;
use crate::line::{
    all_playable, empty_count, lemma_each_tile_merges_once, lemma_merged_shape, lemma_power_fits,
    lemma_line_gain_is_stamped_total, lemma_slid_line, lemma_slid_opens_per_merge, merge_count, merge_gain, merge_pairs, merged,
    numbers_of, power_of, powers_at_most, slid, slide_line, stamped_total, stamped_value,
};
use crate::tile::{
    cell, cell_index, CornerSide, EdgeSide, cells_wf, is_interior, lemma_cell_of_index, on_grid, Generation, Tile,
    Tiles, BOARD_CELLS, BOARD_DIMENSION, NUMBER_TILES_PER_LINE,
};

verus! {

/// The way a move slides the tiles.
#[derive(Clone, Copy, Debug, PartialEq, Eq, Structural)]
pub enum Direction {
    Up,
    Down,
    Left,
    Right,
}

/// The cell at position `j` from the wall of line `k` for a move toward `d`.
/// Lines are rows for `Left` and `Right` and columns for `Up` and `Down`.
pub open spec fn line_cell(d: Direction, k: int, j: int) -> (int, int) {
    match d {
        Direction::Left => (k + 1, j + 1),
        Direction::Right => (k + 1, 4 - j),
        Direction::Up => (j + 1, k + 1),
        Direction::Down => (4 - j, k + 1),
    }
}

/// The line that the playable cell `(r, c)` belongs to for a move toward `d`.
pub open spec fn line_index(d: Direction, r: int, c: int) -> int {
    match d {
        Direction::Left | Direction::Right => r - 1,
        Direction::Up | Direction::Down => c - 1,
    }
}

/// The position from the wall of the playable cell `(r, c)` in its line.
pub open spec fn line_pos(d: Direction, r: int, c: int) -> int {
    match d {
        Direction::Left => c - 1,
        Direction::Right => 4 - c,
        Direction::Up => r - 1,
        Direction::Down => 4 - r,
    }
}

/// Line `k` of the grid `s` for a move toward `d`, from the wall outward.
pub open spec fn line_of(s: Seq<Tile>, d: Direction, k: int) -> Seq<Tile> {
    Seq::new(4, |j: int| cell(s, line_cell(d, k, j).0, line_cell(d, k, j).1))
}

/// The cell `(r, c)` after a move toward `d`.
pub open spec fn moved_cell(s: Seq<Tile>, d: Direction, generation: Generation, r: int, c: int) -> Tile {
    if is_interior(r, c) {
        slid(line_of(s, d, line_index(d, r, c)), generation)[line_pos(d, r, c)]
    } else {
        cell(s, r, c)
    }
}

/// The grid `s` after a move toward `d` stamped `generation`.
pub open spec fn slide_cells(s: Seq<Tile>, d: Direction, generation: Generation) -> Seq<Tile> {
    Seq::new(BOARD_CELLS as nat, |i: int| moved_cell(s, d, generation, i / 6, i % 6))
}

/// What the merges of the first `n` lines add to the score.
pub open spec fn gain_of_lines(s: Seq<Tile>, d: Direction, generation: Generation, n: int) -> nat
    decreases n,
{
    if n <= 0 {
        0
    } else {
        gain_of_lines(s, d, generation, n - 1) + merge_gain(line_of(s, d, n - 1), generation)
    }
}

/// What the merges of a move add to the score.
pub open spec fn move_gain(s: Seq<Tile>, d: Direction, generation: Generation) -> nat {
    gain_of_lines(s, d, generation, 4)
}

/// The flat indices of the empty cells among the first `n` cells, in order.
pub open spec fn empty_cells_upto(s: Seq<Tile>, n: int) -> Seq<int>
    decreases n,
{
    if n <= 0 {
        Seq::empty()
    } else if s[n - 1] is Empty {
        empty_cells_upto(s, n - 1).push(n - 1)
    } else {
        empty_cells_upto(s, n - 1)
    }
}

/// The flat indices of the empty cells of the grid, row by row.
pub open spec fn empty_cells(s: Seq<Tile>) -> Seq<int> {
    empty_cells_upto(s, BOARD_CELLS as int)
}

/// The number of empty cells of the grid.
pub open spec fn open_count(s: Seq<Tile>) -> nat {
    empty_cells(s).len()
}

/// The highest power among the first `n` cells; zero where there is none.
pub open spec fn highest_upto(s: Seq<Tile>, n: int) -> Power
    decreases n,
{
    if n <= 0 {
        0
    } else {
        let h = highest_upto(s, n - 1);
        if power_of(s[n - 1]) > h {
            power_of(s[n - 1])
        } else {
            h
        }
    }
}

/// The highest power on the grid; zero where there is none.
pub open spec fn highest(s: Seq<Tile>) -> Power {
    highest_upto(s, BOARD_CELLS as int)
}

/// The game state.
#[derive(Clone, Copy)]
pub struct Board {
    /// The grid, border included.
    pub tiles: Tiles,
    /// The sum of the values of all tiles made by merging.
    pub score: u32,
    /// The number of empty playable cells.
    pub open_tiles: u32,
    /// The highest power ever placed on the grid.
    pub max_tile: Power,
}

impl Board {
    /// Whether the grid is bordered, the open count matches it and no power
    /// on it exceeds `max_tile`.
    pub open spec fn wf(&self) -> bool {
        &&& cells_wf(self.tiles@)
        &&& self.open_tiles == open_count(self.tiles@)
        &&& highest(self.tiles@) <= self.max_tile
    }

    /// Whether the score has room for the merges of one more move: each of
    /// at most sixteen merges adds at most `2^(max_tile + 1)`.
    pub open spec fn has_room(&self) -> bool {
        self.score + 16 * pow2(self.max_tile as nat + 1) <= u32::MAX
    }
}

/// The row and column of position `j` from the wall of line `k` for a move
/// toward `d`.
fn cell_of(d: Direction, k: usize, j: usize) -> (rc: (usize, usize))
    requires
        k < 4,
        j < 4,
    ensures
        rc.0 == line_cell(d, k as int, j as int).0,
        rc.1 == line_cell(d, k as int, j as int).1,
{
    match d {
        Direction::Left => (k + 1, j + 1),
        Direction::Right => (k + 1, 4 - j),
        Direction::Up => (j + 1, k + 1),
        Direction::Down => (4 - j, k + 1),
    }
}

impl Board {
    /// Line `k` for a move toward `d`, from the wall outward.
    fn read_line(&self, d: Direction, k: usize) -> (line: [Tile; NUMBER_TILES_PER_LINE])
        requires
            k < 4,
            self.tiles@.len() == BOARD_CELLS,
        ensures
            line@ == line_of(self.tiles@, d, k as int),
    {
        let mut line: [Tile; NUMBER_TILES_PER_LINE] = [Tile::Empty(); NUMBER_TILES_PER_LINE];
        let mut j: usize = 0;
        while j < NUMBER_TILES_PER_LINE
            invariant
                k < 4,
                j <= NUMBER_TILES_PER_LINE,
                forall|i: int| 0 <= i < j ==> line@[i] == line_of(self.tiles@, d, k as int)[i],
            decreases NUMBER_TILES_PER_LINE - j,
        {
            let (r, c) = cell_of(d, k, j);
            line[j] = self.tiles.get(r, c);
            j = j + 1;
        }
        assert(line@ =~= line_of(self.tiles@, d, k as int));
        line
    }

    /// Writes `line` over line `k` for a move toward `d`.
    fn write_line(&mut self, d: Direction, k: usize, line: [Tile; NUMBER_TILES_PER_LINE])
        requires
            k < 4,
            old(self).tiles@.len() == BOARD_CELLS,
        ensures
            final(self).tiles@.len() == BOARD_CELLS,
            forall|r: int, c: int|
                on_grid(r, c) ==> #[trigger] cell(final(self).tiles@, r, c) == if is_interior(r, c)
                    && line_index(d, r, c) == k {
                    line@[line_pos(d, r, c)]
                } else {
                    cell(old(self).tiles@, r, c)
                },
            open_count(final(self).tiles@) + empty_count(line_of(old(self).tiles@, d, k as int))
                == open_count(old(self).tiles@) + empty_count(line@),
            final(self).score == old(self).score,
            final(self).open_tiles == old(self).open_tiles,
            final(self).max_tile == old(self).max_tile,
    {
        let ghost start = self.tiles@;
        let ghost was = line_of(start, d, k as int);
        let mut j: usize = 0;
        while j < NUMBER_TILES_PER_LINE
            invariant
                k < 4,
                j <= NUMBER_TILES_PER_LINE,
                start.len() == BOARD_CELLS,
                self.tiles@.len() == BOARD_CELLS,
                self.score == old(self).score,
                self.open_tiles == old(self).open_tiles,
                self.max_tile == old(self).max_tile,
                start == old(self).tiles@,
                was == line_of(start, d, k as int),
                open_count(self.tiles@) + empty_count(was.take(j as int)) == open_count(start)
                    + empty_count(line@.take(j as int)),
                forall|r: int, c: int|
                    on_grid(r, c) ==> #[trigger] cell(self.tiles@, r, c) == if is_interior(r, c)
                        && line_index(d, r, c) == k && line_pos(d, r, c) < j {
                        line@[line_pos(d, r, c)]
                    } else {
                        cell(start, r, c)
                    },
            decreases NUMBER_TILES_PER_LINE - j,
        {
            let (r, c) = cell_of(d, k, j);
            let ghost before = self.tiles@;
            proof {
                let x = cell_index(r as int, c as int);
                assert(on_grid(r as int, c as int));
                assert(line_index(d, r as int, c as int) == k && line_pos(d, r as int, c as int) == j);
                assert(cell(before, r as int, c as int) == cell(start, r as int, c as int));
                assert(before[x] == cell(start, r as int, c as int));
                assert(before[x] == was[j as int]);
                lemma_replace_cell(before, x, line[j as int], BOARD_CELLS as int);
                assert(was.take(j as int + 1).drop_last() =~= was.take(j as int));
                assert(line@.take(j as int + 1).drop_last() =~= line@.take(j as int));
            }
            self.tiles.set(r, c, line[j]);
            assert forall|r2: int, c2: int| on_grid(r2, c2) implies #[trigger] cell(self.tiles@, r2, c2)
                == if is_interior(r2, c2) && line_index(d, r2, c2) == k && line_pos(d, r2, c2) < j
                + 1 {
                line@[line_pos(d, r2, c2)]
            } else {
                cell(start, r2, c2)
            } by {
                if r2 == r && c2 == c {
                } else {
                    assert(cell_index(r2, c2) != cell_index(r as int, c as int));
                    assert(cell(self.tiles@, r2, c2) == cell(before, r2, c2));
                }
            }
            j = j + 1;
        }
        assert(was.take(4) =~= was);
        assert(line@.take(4) =~= line@);
    }
}

/// No cell among the first `n` has a power above `highest_upto(s, n)`.
pub proof fn lemma_highest_bounds(s: Seq<Tile>, n: int)
    requires
        0 <= n <= s.len(),
    ensures
        forall|i: int| 0 <= i < n ==> power_of(#[trigger] s[i]) <= highest_upto(s, n),
    decreases n,
{
    if n > 0 {
        lemma_highest_bounds(s, n - 1);
    }
}

/// A grid with an empty cell among its first `n` counts it.
pub proof fn lemma_empty_cell_counted(s: Seq<Tile>, x: int, n: int)
    requires
        0 <= x < n <= s.len(),
        s[x] is Empty,
    ensures
        empty_cells_upto(s, n).len() > 0,
    decreases n,
{
    if x < n - 1 {
        lemma_empty_cell_counted(s, x, n - 1);
    }
}

/// Replacing cell `x` changes the number of empty cells among the first `n`
/// by what it takes away and what it puts in.
pub proof fn lemma_replace_cell(s: Seq<Tile>, x: int, t: Tile, n: int)
    requires
        0 <= x < s.len(),
        0 <= n <= s.len(),
    ensures
        empty_cells_upto(s.update(x, t), n).len() + (if x < n && s[x] is Empty { 1int } else { 0 })
            == empty_cells_upto(s, n).len() + (if x < n && t is Empty { 1int } else { 0 }),
    decreases n,
{
    if n > 0 {
        lemma_replace_cell(s, x, t, n - 1);
    }
}

/// The number of merges of the first `n` lines of a move.
pub open spec fn merges_of_lines(s: Seq<Tile>, d: Direction, generation: Generation, n: int) -> nat
    decreases n,
{
    if n <= 0 {
        0
    } else {
        merges_of_lines(s, d, generation, n - 1) + merge_count(line_of(s, d, n - 1), generation)
    }
}

/// The number of merges of a move.
pub open spec fn move_merges(s: Seq<Tile>, d: Direction, generation: Generation) -> nat {
    merges_of_lines(s, d, generation, 4)
}

/// Whether two lines differ in some cell.
fn lines_differ(a: &[Tile; NUMBER_TILES_PER_LINE], b: &[Tile; NUMBER_TILES_PER_LINE]) -> (r: bool)
    ensures
        r == (a@ != b@),
{
    let mut j: usize = 0;
    while j < NUMBER_TILES_PER_LINE
        invariant
            j <= NUMBER_TILES_PER_LINE,
            forall|i: int| 0 <= i < j ==> a@[i] == b@[i],
        decreases NUMBER_TILES_PER_LINE - j,
    {
        if a[j] != b[j] {
            return true;
        }
        j = j + 1;
    }
    assert(a@ =~= b@);
    false
}

impl Board {
    /// The number of empty cells on the grid.
    pub fn count_open(&self) -> (n: u32)
        requires
            self.tiles@.len() == BOARD_CELLS,
        ensures
            n == open_count(self.tiles@),
    {
        let mut n: u32 = 0;
        let mut i: usize = 0;
        while i < BOARD_CELLS
            invariant
                i <= BOARD_CELLS,
                self.tiles@.len() == BOARD_CELLS,
                n == empty_cells_upto(self.tiles@, i as int).len(),
                n <= i,
            decreases BOARD_CELLS - i,
        {
            if self.tiles.0[i].is_empty() {
                n = n + 1;
            }
            i = i + 1;
        }
        n
    }

    /// The highest power on the grid; zero where there is none.
    pub fn highest_power(&self) -> (h: Power)
        requires
            self.tiles@.len() == BOARD_CELLS,
        ensures
            h == highest(self.tiles@),
    {
        let mut h: Power = 0;
        let mut i: usize = 0;
        while i < BOARD_CELLS
            invariant
                i <= BOARD_CELLS,
                self.tiles@.len() == BOARD_CELLS,
                h == highest_upto(self.tiles@, i as int),
            decreases BOARD_CELLS - i,
        {
            if let Tile::Number(p, _) = self.tiles.0[i] {
                if p > h {
                    h = p;
                }
            }
            i = i + 1;
        }
        h
    }

    /// Slides every tile toward `direction` and merges equal neighbours once,
    /// stamping merged tiles with `generation`. Returns whether any cell
    /// changed.
    pub fn update(&mut self, direction: Direction, generation: Generation) -> (moved: bool)
        requires
            old(self).wf(),
            old(self).has_room(),
        ensures
            final(self).wf(),
            final(self).tiles@ == slide_cells(old(self).tiles@, direction, generation),
            moved == (final(self).tiles@ != old(self).tiles@),
            !moved ==> final(self).tiles@ == old(self).tiles@ && final(self).score == old(self).score
                && final(self).open_tiles == old(self).open_tiles && final(self).max_tile == old(
                self).max_tile,
            moved ==> final(self).open_tiles > 0,
            final(self).score == old(self).score + move_gain(old(self).tiles@, direction, generation),
            final(self).open_tiles == open_count(final(self).tiles@),
            final(self).open_tiles == old(self).open_tiles + move_merges(
                old(self).tiles@,
                direction,
                generation,
            ),
            final(self).max_tile == if highest(final(self).tiles@) > old(self).max_tile {
                highest(final(self).tiles@)
            } else {
                old(self).max_tile
            },
    {
        let ghost s0 = self.tiles@;
        let d = direction;
        let m = self.max_tile;
        let ghost big = pow2(m as nat + 1);
        proof {
            lemma_power_fits(m as nat);
            lemma_pow2_pos(m as nat + 1);
            lemma_highest_bounds(s0, BOARD_CELLS as int);
        }
        let mut moved = false;
        let mut k: usize = 0;
        while k < 4
            invariant
                k <= 4,
                s0 == old(self).tiles@,
                old(self).wf(),
                old(self).has_room(),
                big == pow2(m as nat + 1),
                big > 0,
                m == old(self).max_tile,
                forall|i: int| 0 <= i < BOARD_CELLS ==> power_of(#[trigger] s0[i]) <= m,
                self.tiles@.len() == BOARD_CELLS,
                self.max_tile == m,
                self.open_tiles == old(self).open_tiles,
                forall|r: int, c: int|
                    on_grid(r, c) ==> #[trigger] cell(self.tiles@, r, c) == if is_interior(r, c)
                        && line_index(d, r, c) < k {
                        moved_cell(s0, d, generation, r, c)
                    } else {
                        cell(s0, r, c)
                    },
                self.score == old(self).score + gain_of_lines(s0, d, generation, k as int),
                open_count(self.tiles@) == open_count(s0) + merges_of_lines(s0, d, generation, k as int),
                gain_of_lines(s0, d, generation, k as int) <= k * (4 * big),
                !moved ==> gain_of_lines(s0, d, generation, k as int) == 0,
                moved == exists|k2: int|
                    0 <= k2 < k && #[trigger] slid(line_of(s0, d, k2), generation) != line_of(
                        s0,
                        d,
                        k2,
                    ),
            decreases 4 - k,
        {
            let line = self.read_line(d, k);
            assert(line@ =~= line_of(s0, d, k as int)) by {
                assert forall|j: int| 0 <= j < 4 implies line@[j] == line_of(s0, d, k as int)[j] by {
                    let rc = line_cell(d, k as int, j);
                    assert(on_grid(rc.0, rc.1));
                    assert(line@[j] == cell(self.tiles@, rc.0, rc.1));
                }
            }
            assert(powers_at_most(line@, m as nat)) by {
                assert forall|j: int| 0 <= j < line@.len() implies power_of(#[trigger] line@[j])
                    <= m by {
                    let rc = line_cell(d, k as int, j);
                    assert(line@[j] == s0[cell_index(rc.0, rc.1)]);
                }
            }
            assert(all_playable(line@)) by {
                assert forall|j: int| 0 <= j < line@.len() implies (#[trigger] line@[j]).is_playable() by {
                    let rc = line_cell(d, k as int, j);
                    assert(on_grid(rc.0, rc.1) && is_interior(rc.0, rc.1));
                    assert(line@[j] == cell(s0, rc.0, rc.1));
                }
            }
            proof {
                lemma_slid_opens_per_merge(line@, generation);
            }
            let (new_line, gain) = slide_line(line, generation, m);
            let changed = lines_differ(&line, &new_line);
            let ghost mid = self.tiles@;
            self.write_line(d, k, new_line);
            assert(gain_of_lines(s0, d, generation, k as int + 1) <= (k + 1) * (4 * big))
                by (nonlinear_arith)
                requires
                    gain_of_lines(s0, d, generation, k as int + 1) == gain_of_lines(
                        s0,
                        d,
                        generation,
                        k as int,
                    ) + gain,
                    gain_of_lines(s0, d, generation, k as int) <= k * (4 * big),
                    gain <= 4 * big,
            ;
            assert((k + 1) * (4 * big) <= 16 * big) by (nonlinear_arith)
                requires
                    k < 4,
                    big > 0,
            ;
            self.score = self.score + gain;
            assert forall|r: int, c: int| on_grid(r, c) implies #[trigger] cell(self.tiles@, r, c)
                == if is_interior(r, c) && line_index(d, r, c) < k + 1 {
                moved_cell(s0, d, generation, r, c)
            } else {
                cell(s0, r, c)
            } by {
                assert(cell(mid, r, c) == if is_interior(r, c) && line_index(d, r, c) < k {
                    moved_cell(s0, d, generation, r, c)
                } else {
                    cell(s0, r, c)
                });
            }
            proof {
                lemma_slid_line(line@, generation);
                if changed {
                    assert(slid(line_of(s0, d, k as int), generation) != line_of(s0, d, k as int));
                }
            }
            moved = moved || changed;
            k = k + 1;
        }
        let ghost s1 = self.tiles@;
        assert(s1 =~= slide_cells(s0, d, generation)) by {
            assert forall|i: int| 0 <= i < BOARD_CELLS implies s1[i] == slide_cells(
                s0,
                d,
                generation,
            )[i] by {
                lemma_cell_of_index(i);
                assert(cell(s1, i / 6, i % 6) == moved_cell(s0, d, generation, i / 6, i % 6));
            }
        }
        proof {
            if moved {
                let k2 = choose|k2: int|
                    0 <= k2 < 4 && #[trigger] slid(line_of(s0, d, k2), generation) != line_of(
                        s0,
                        d,
                        k2,
                    );
                let a = slid(line_of(s0, d, k2), generation);
                let b = line_of(s0, d, k2);
                assert(a.len() == 4 && b.len() == 4);
                assert(!(a =~= b));
                let j = choose|j: int|
                    0 <= j < 4 && slid(line_of(s0, d, k2), generation)[j] != #[trigger] line_of(
                        s0,
                        d,
                        k2,
                    )[j];
                let rc = line_cell(d, k2, j);
                assert(on_grid(rc.0, rc.1) && is_interior(rc.0, rc.1));
                assert(line_index(d, rc.0, rc.1) == k2 && line_pos(d, rc.0, rc.1) == j);
                assert(cell(s1, rc.0, rc.1) == moved_cell(s0, d, generation, rc.0, rc.1));
                assert(cell(s1, rc.0, rc.1) != cell(s0, rc.0, rc.1));
                lemma_slid_line(b, generation);
                let gap = line_cell(d, k2, 3);
                assert(line_index(d, gap.0, gap.1) == k2 && line_pos(d, gap.0, gap.1) == 3);
                assert(cell(s1, gap.0, gap.1) == moved_cell(s0, d, generation, gap.0, gap.1));
                lemma_empty_cell_counted(s1, cell_index(gap.0, gap.1), BOARD_CELLS as int);
            } else {
                assert(s1 =~= s0) by {
                    assert forall|i: int| 0 <= i < BOARD_CELLS implies s1[i] == s0[i] by {
                        lemma_cell_of_index(i);
                        let r = i / 6;
                        let c = i % 6;
                        if is_interior(r, c) {
                            let k2 = line_index(d, r, c);
                            assert(slid(line_of(s0, d, k2), generation) == line_of(s0, d, k2));
                            assert(line_cell(d, k2, line_pos(d, r, c)) == (r, c));
                        }
                        assert(cell(s1, r, c) == cell(s0, r, c));
                    }
                }
            }
            assert(cells_wf(s1)) by {
                assert forall|r: int, c: int| on_grid(r, c) implies if is_interior(r, c) {
                    (#[trigger] cell(s1, r, c)).is_playable()
                } else {
                    cell(s1, r, c) == crate::tile::border_at(r, c)
                } by {
                    assert(cell(s1, r, c) == moved_cell(s0, d, generation, r, c));
                    if is_interior(r, c) {
                        let ln = line_of(s0, d, line_index(d, r, c));
                        assert(powers_at_most(ln, m as nat)) by {
                            assert forall|j: int| 0 <= j < ln.len() implies power_of(
                                #[trigger] ln[j],
                            ) <= m by {
                                let rc = line_cell(d, line_index(d, r, c), j);
                                assert(ln[j] == s0[cell_index(rc.0, rc.1)]);
                            }
                        }
                        lemma_merged_shape(ln, generation, m as nat);
                        let pos = line_pos(d, r, c);
                        if pos < merged(ln, generation).len() {
                            assert(merged(ln, generation)[pos] is Number);
                        }
                    }
                }
            }
        }
        self.open_tiles = self.count_open();
        let h = self.highest_power();
        proof {
            if !moved {
                lemma_highest_bounds(s0, BOARD_CELLS as int);
                lemma_highest_at_most(s0, BOARD_CELLS as int, m);
            }
        }
        if h > self.max_tile {
            self.max_tile = h;
        }
        moved
    }
}

/// No cell among the first `n` has a power above `m` only if
/// `highest_upto(s, n)` is at most `m`.
pub proof fn lemma_highest_at_most(s: Seq<Tile>, n: int, m: Power)
    requires
        0 <= n <= s.len(),
        forall|i: int| 0 <= i < n ==> power_of(#[trigger] s[i]) <= m,
    ensures
        highest_upto(s, n) <= m,
    decreases n,
{
    if n > 0 {
        lemma_highest_at_most(s, n - 1, m);
    }
}

/// The empty cells among the first `n` are increasing indices of empty cells,
/// and those among the first `n` are the start of those among the first `m`.
pub proof fn lemma_empty_cells_prefix(s: Seq<Tile>, n: int, m: int)
    requires
        0 <= n <= m <= s.len(),
    ensures
        empty_cells_upto(s, n).len() <= empty_cells_upto(s, m).len(),
        empty_cells_upto(s, n).len() <= n,
        forall|j: int|
            0 <= j < empty_cells_upto(s, n).len() ==> #[trigger] empty_cells_upto(s, n)[j]
                == empty_cells_upto(s, m)[j],
        forall|j: int|
            0 <= j < empty_cells_upto(s, n).len() ==> {
                let x = #[trigger] empty_cells_upto(s, n)[j];
                0 <= x < n && s[x] is Empty
            },
    decreases m,
{
    if m > n {
        lemma_empty_cells_prefix(s, n, m - 1);
    } else if n > 0 {
        lemma_empty_cells_prefix(s, n - 1, n - 1);
    }
}

/// Filling the empty cell `x` with a number leaves one empty cell fewer among
/// any first `n` cells that include it.
pub proof fn lemma_fill_empty_cell(s: Seq<Tile>, x: int, t: Tile, n: int)
    requires
        0 <= x < s.len(),
        0 <= n <= s.len(),
        s[x] is Empty,
        t is Number,
    ensures
        empty_cells_upto(s.update(x, t), n).len() + (if x < n { 1int } else { 0 })
            == empty_cells_upto(s, n).len(),
    decreases n,
{
    if n > 0 {
        lemma_fill_empty_cell(s, x, t, n - 1);
    }
}

/// The power of a freshly spawned tile for a draw in `0..4`: one draw in
/// four gives a 4 tile, the others a 2 tile.
pub fn spawn_power(draw: u64) -> (p: Power)
    ensures
        p == if draw == CHANCE_OF_FOUR_TILES - 1 { 2u32 } else { 1u32 },
{
    if draw == CHANCE_OF_FOUR_TILES - 1 {
        2
    } else {
        1
    }
}

/// One spawn in this many is a 4 tile.
pub const CHANCE_OF_FOUR_TILES: u64 = 4;

/// Relies on `fastrand::u64` over the range `..n`: a value below `n`, drawn
/// from the thread's generator. It panics on an empty range, so `n > 0`.
#[verifier::external_body]
fn random_below(n: u64) -> (r: u64)
    requires
        n > 0,
    ensures
        r < n,
{
    fastrand::u64(..n)
}

/// The grid `s` with a tile of power `p` stamped `generation` put into its
/// `index`-th empty cell, counted row by row.
pub open spec fn spawned_cells(s: Seq<Tile>, index: int, p: Power, generation: Generation) -> Seq<
    Tile,
> {
    s.update(empty_cells(s)[index], Tile::Number(p, generation))
}

impl Board {
    /// Whether the grid has an empty cell.
    pub fn has_space(&self) -> (r: bool)
        ensures
            r == (self.open_tiles != 0),
    {
        self.open_tiles != 0
    }

    /// Puts a tile of power `power` stamped `generation` into the
    /// `index`-th empty cell, counted row by row.
    pub fn place_tile(&mut self, index: u64, power: Power, generation: Generation)
        requires
            old(self).wf(),
            index < old(self).open_tiles,
        ensures
            final(self).wf(),
            final(self).tiles@ == spawned_cells(old(self).tiles@, index as int, power, generation),
            final(self).open_tiles == old(self).open_tiles - 1,
            final(self).score == old(self).score,
            final(self).max_tile == if power > old(self).max_tile {
                power
            } else {
                old(self).max_tile
            },
    {
        let ghost s0 = self.tiles@;
        let mut cursor: u64 = 0;
        let mut i: usize = 0;
        proof {
            lemma_empty_cells_prefix(s0, 0, BOARD_CELLS as int);
        }
        while i < BOARD_CELLS
            invariant
                i <= BOARD_CELLS,
                old(self).wf(),
                *self == *old(self),
                s0 == self.tiles@,
                index < self.open_tiles,
                cursor == empty_cells_upto(s0, i as int).len(),
                cursor <= index,
            decreases BOARD_CELLS - i,
        {
            if self.tiles.0[i].is_empty() {
                if cursor == index {
                    let t = Tile::Number(power, generation);
                    proof {
                        lemma_empty_cells_prefix(s0, i as int + 1, BOARD_CELLS as int);
                        assert(empty_cells_upto(s0, i as int + 1)[index as int] == i);
                        assert(empty_cells(s0)[index as int] == i);
                        lemma_fill_empty_cell(s0, i as int, t, BOARD_CELLS as int);
                    }
                    self.tiles.0[i] = t;
                    self.open_tiles = self.open_tiles - 1;
                    if power > self.max_tile {
                        self.max_tile = power;
                    }
                    let ghost s1 = self.tiles@;
                    proof {
                        assert(s1 == s0.update(i as int, t));
                        lemma_highest_bounds(s0, BOARD_CELLS as int);
                        assert forall|j: int| 0 <= j < BOARD_CELLS implies power_of(#[trigger] s1[j])
                            <= self.max_tile by {
                            if j != i {
                                assert(s1[j] == s0[j]);
                            }
                        }
                        lemma_highest_at_most(s1, BOARD_CELLS as int, self.max_tile);
                        assert(cells_wf(s1)) by {
                            assert forall|r: int, c: int| on_grid(r, c) implies if is_interior(r, c) {
                                (#[trigger] cell(s1, r, c)).is_playable()
                            } else {
                                cell(s1, r, c) == crate::tile::border_at(r, c)
                            } by {
                                assert(cell(s0, r, c) == s0[cell_index(r, c)]);
                                if cell_index(r, c) != i {
                                    assert(cell(s1, r, c) == cell(s0, r, c));
                                }
                            }
                        }
                    }
                    return;
                }
                cursor = cursor + 1;
            }
            i = i + 1;
        }
        proof {
            assert(false);
        }
    }

    /// Puts a new tile into an empty cell chosen uniformly at random: a 4
    /// tile with chance one in four, else a 2 tile. Returns `false`, changing
    /// nothing, when the grid is full.
    pub fn spawn_tile(&mut self, generation: Generation) -> (spawned: bool)
        requires
            old(self).wf(),
        ensures
            final(self).wf(),
            spawned == (old(self).open_tiles != 0),
            !spawned ==> *final(self) == *old(self),
            spawned ==> exists|index: int, p: Power|
                0 <= index < old(self).open_tiles && (p == 1 || p == 2) && final(self).tiles@
                    == spawned_cells(old(self).tiles@, index, p, generation) && final(self).max_tile
                    == (if p > old(self).max_tile {
                    p
                } else {
                    old(self).max_tile
                }),
            final(self).open_tiles == open_count(final(self).tiles@),
            spawned ==> final(self).open_tiles == old(self).open_tiles - 1,
            final(self).score == old(self).score,
    {
        if !self.has_space() {
            return false;
        }
        let index = random_below(self.open_tiles as u64);
        let draw = random_below(CHANCE_OF_FOUR_TILES);
        let power = spawn_power(draw);
        self.place_tile(index, power, generation);
        true
    }
}

/// The cell that a new grid holds at the flat index `i`.
pub open spec fn initial_cell(i: int) -> Tile {
    if is_interior(i / 6, i % 6) {
        Tile::Empty()
    } else {
        crate::tile::border_at(i / 6, i % 6)
    }
}

/// The cell that a new grid holds at row `r` and column `c`.
fn initial_tile(r: usize, c: usize) -> (t: Tile)
    requires
        r < BOARD_DIMENSION,
        c < BOARD_DIMENSION,
    ensures
        t == if is_interior(r as int, c as int) {
            Tile::Empty()
        } else {
            crate::tile::border_at(r as int, c as int)
        },
{
    if 1 <= r && r <= 4 && 1 <= c && c <= 4 {
        Tile::Empty()
    } else if r == 0 {
        if c == 0 {
            Tile::Corner(CornerSide::TopLeft)
        } else if c == 5 {
            Tile::Corner(CornerSide::TopRight)
        } else {
            Tile::Edge(EdgeSide::Top)
        }
    } else if r == 5 {
        if c == 0 {
            Tile::Corner(CornerSide::BottomLeft)
        } else if c == 5 {
            Tile::Corner(CornerSide::BottomRight)
        } else {
            Tile::Edge(EdgeSide::Bottom)
        }
    } else if c == 0 {
        Tile::Edge(EdgeSide::Left)
    } else {
        Tile::Edge(EdgeSide::Right)
    }
}

impl Board {
    /// An empty bordered grid with a zero score.
    pub fn new() -> (b: Board)
        ensures
            b.wf(),
            b.score == 0,
            b.max_tile == 0,
            b.open_tiles == 16,
            forall|r: int, c: int| is_interior(r, c) ==> #[trigger] cell(b.tiles@, r, c) is Empty,
    {
        let mut tiles = Tiles([Tile::Empty(); BOARD_CELLS]);
        let mut i: usize = 0;
        while i < BOARD_CELLS
            invariant
                i <= BOARD_CELLS,
                tiles@.len() == BOARD_CELLS,
                forall|j: int| 0 <= j < i ==> #[trigger] tiles@[j] == initial_cell(j),
            decreases BOARD_CELLS - i,
        {
            tiles.0[i] = initial_tile(i / BOARD_DIMENSION, i % BOARD_DIMENSION);
            i = i + 1;
        }
        let ghost s = tiles@;
        assert forall|r: int, c: int| on_grid(r, c) implies #[trigger] cell(s, r, c)
            == initial_cell(cell_index(r, c)) && (cell_index(r, c) / 6 == r && cell_index(r, c) % 6 == c) by {
            assert((r * 6 + c) / 6 == r && (r * 6 + c) % 6 == c) by (nonlinear_arith)
                requires
                    0 <= r < 6,
                    0 <= c < 6,
            ;
        }
        assert(cells_wf(s));
        let mut b = Board { tiles, score: 0, open_tiles: 0, max_tile: 0 };
        proof {
            assert forall|j: int| 0 <= j < BOARD_CELLS implies power_of(#[trigger] s[j]) <= 0 by {
                lemma_cell_of_index(j);
            }
            lemma_highest_at_most(s, BOARD_CELLS as int, 0);
            reveal_with_fuel(empty_cells_upto, 37);
            assert(empty_cells_upto(s, BOARD_CELLS as int).len() == 16);
        }
        b.open_tiles = b.count_open();
        b
    }
}

impl Board {
    /// The cell at row `r` and column `c`, border included.
    pub fn tile(&self, r: usize, c: usize) -> (t: Tile)
        requires
            r < BOARD_DIMENSION,
            c < BOARD_DIMENSION,
        ensures
            t == cell(self.tiles@, r as int, c as int),
    {
        self.tiles.get(r, c)
    }

    /// Puts a tile of power `power` stamped `generation` onto the playable
    /// cell at row `r` and column `c`, whatever it held.
    pub fn put_number(&mut self, r: usize, c: usize, power: Power, generation: Generation)
        requires
            old(self).wf(),
            is_interior(r as int, c as int),
        ensures
            final(self).wf(),
            final(self).tiles@ == old(self).tiles@.update(
                cell_index(r as int, c as int),
                Tile::Number(power, generation),
            ),
            final(self).score == old(self).score,
            final(self).max_tile == if power > old(self).max_tile {
                power
            } else {
                old(self).max_tile
            },
    {
        let ghost s0 = self.tiles@;
        self.tiles.set(r, c, Tile::Number(power, generation));
        let ghost s1 = self.tiles@;
        if power > self.max_tile {
            self.max_tile = power;
        }
        proof {
            lemma_highest_bounds(s0, BOARD_CELLS as int);
            assert forall|j: int| 0 <= j < BOARD_CELLS implies power_of(#[trigger] s1[j])
                <= self.max_tile by {
                if j != cell_index(r as int, c as int) {
                    assert(s1[j] == s0[j]);
                }
            }
            lemma_highest_at_most(s1, BOARD_CELLS as int, self.max_tile);
            assert forall|r2: int, c2: int| on_grid(r2, c2) implies if is_interior(r2, c2) {
                (#[trigger] cell(s1, r2, c2)).is_playable()
            } else {
                cell(s1, r2, c2) == crate::tile::border_at(r2, c2)
            } by {
                if r2 != r || c2 != c {
                    assert(cell_index(r2, c2) != cell_index(r as int, c as int));
                    assert(cell(s1, r2, c2) == cell(s0, r2, c2));
                }
            }
        }
        self.open_tiles = self.count_open();
    }
}

impl Board {
    /// Whether the score has room for the merges of one more move.
    pub fn has_headroom(&self) -> (r: bool)
        ensures
            r == self.has_room(),
    {
        let m = self.max_tile;
        if m >= 28 {
            proof {
                lemma2_to64();
                if m + 1 > 29 {
                    lemma_pow2_strictly_increases(29, m as nat + 1);
                }
            }
            false
        } else {
            proof {
                lemma2_to64();
                if m + 1 < 29 {
                    lemma_pow2_strictly_increases(m as nat + 1, 29);
                }
                lemma_u64_shl_is_mul(1, (m + 1) as u64);
            }
            let big: u64 = 1u64 << (m as u64 + 1);
            (self.score as u64) + 16 * big <= u32::MAX as u64
        }
    }
}

/// A slide leaves the grid as it is exactly when it leaves each of its four
/// lines as it is.
pub proof fn lemma_grid_stays_iff_lines_stay(s: Seq<Tile>, d: Direction, generation: Generation)
    requires
        s.len() == BOARD_CELLS,
    ensures
        (slide_cells(s, d, generation) == s) <==> forall|k: int|
            0 <= k < 4 ==> #[trigger] slid(line_of(s, d, k), generation) == line_of(s, d, k),
{
    let t = slide_cells(s, d, generation);
    if forall|k: int| 0 <= k < 4 ==> #[trigger] slid(line_of(s, d, k), generation) == line_of(s, d, k) {
        assert(t =~= s) by {
            assert forall|i: int| 0 <= i < BOARD_CELLS implies t[i] == s[i] by {
                lemma_cell_of_index(i);
                let r = i / 6;
                let c = i % 6;
                if is_interior(r, c) {
                    let k = line_index(d, r, c);
                    assert(slid(line_of(s, d, k), generation) == line_of(s, d, k));
                    assert(line_cell(d, k, line_pos(d, r, c)) == (r, c));
                }
                assert(moved_cell(s, d, generation, r, c) == cell(s, r, c));
            }
        }
    }
    if t == s {
        assert forall|k: int| 0 <= k < 4 implies #[trigger] slid(line_of(s, d, k), generation)
            == line_of(s, d, k) by {
            let a = slid(line_of(s, d, k), generation);
            let b = line_of(s, d, k);
            assert forall|j: int| 0 <= j < 4 implies a[j] == b[j] by {
                let rc = line_cell(d, k, j);
                assert(on_grid(rc.0, rc.1) && is_interior(rc.0, rc.1));
                assert(line_index(d, rc.0, rc.1) == k && line_pos(d, rc.0, rc.1) == j);
                let i = cell_index(rc.0, rc.1);
                assert(i / 6 == rc.0 && i % 6 == rc.1) by (nonlinear_arith)
                    requires
                        i == rc.0 * 6 + rc.1,
                        0 <= rc.0 < 6,
                        0 <= rc.1 < 6,
                ;
                assert(t[i] == moved_cell(s, d, generation, rc.0, rc.1));
            }
            assert(a =~= b);
        }
    }
}

/// A grid with no open cell holds a number in every playable cell.
pub proof fn lemma_full_grid_numbers(s: Seq<Tile>)
    requires
        cells_wf(s),
        open_count(s) == 0,
    ensures
        forall|r: int, c: int| is_interior(r, c) ==> #[trigger] cell(s, r, c) is Number,
{
    assert forall|r: int, c: int| is_interior(r, c) implies #[trigger] cell(s, r, c) is Number by {
        assert(on_grid(r, c));
        if cell(s, r, c) is Empty {
            lemma_empty_cell_counted(s, cell_index(r, c), BOARD_CELLS as int);
        }
    }
}

/// Merge-once for a whole move: line `k` of the grid after a slide toward
/// `d` holds, from the wall, the numbered tiles of the old line merged pair by
/// pair (each merge consumes two equal tiles that no merge of this move made,
/// and yields one tile a single power higher, stamped `generation`), then
/// empty cells.
pub proof fn lemma_move_merges_each_tile_once(
    s: Seq<Tile>,
    d: Direction,
    generation: Generation,
    k: int,
)
    requires
        s.len() == BOARD_CELLS,
        0 <= k < 4,
    ensures
        line_of(slide_cells(s, d, generation), d, k) == slid(line_of(s, d, k), generation),
        merged(line_of(s, d, k), generation) == merge_pairs(numbers_of(line_of(s, d, k)), generation),
{
    let t = slide_cells(s, d, generation);
    let a = line_of(t, d, k);
    let b = slid(line_of(s, d, k), generation);
    assert forall|j: int| 0 <= j < 4 implies a[j] == b[j] by {
        let rc = line_cell(d, k, j);
        assert(on_grid(rc.0, rc.1) && is_interior(rc.0, rc.1));
        assert(line_index(d, rc.0, rc.1) == k && line_pos(d, rc.0, rc.1) == j);
        let i = cell_index(rc.0, rc.1);
        assert(i / 6 == rc.0 && i % 6 == rc.1) by (nonlinear_arith)
            requires
                i == rc.0 * 6 + rc.1,
                0 <= rc.0 < 6,
                0 <= rc.1 < 6,
        ;
        assert(t[i] == moved_cell(s, d, generation, rc.0, rc.1));
    }
    assert(a =~= b);
    lemma_each_tile_merges_once(line_of(s, d, k), generation);
}

/// The sum of `2^p` over the tiles `Number(p, generation)` of the first `n`
/// lines of `s` along `d`.
pub open spec fn stamped_of_lines(s: Seq<Tile>, d: Direction, generation: Generation, n: int) -> nat
    decreases n,
{
    if n <= 0 {
        0
    } else {
        stamped_of_lines(s, d, generation, n - 1) + stamped_total(line_of(s, d, n - 1), generation)
    }
}

proof fn lemma_gain_of_lines_stamped(s: Seq<Tile>, d: Direction, generation: Generation, n: int)
    requires
        s.len() == BOARD_CELLS,
        0 <= n <= 4,
        forall|r: int, c: int| is_interior(r, c) ==> stamped_value(#[trigger] cell(s, r, c), generation) == 0
            && power_of(cell(s, r, c)) < u32::MAX,
    ensures
        gain_of_lines(s, d, generation, n) == stamped_of_lines(slide_cells(s, d, generation), d, generation, n),
    decreases n,
{
    if n > 0 {
        lemma_gain_of_lines_stamped(s, d, generation, n - 1);
        let k = n - 1;
        let ln = line_of(s, d, k);
        lemma_move_merges_each_tile_once(s, d, generation, k);
        assert forall|j: int| 0 <= j < ln.len() implies stamped_value(#[trigger] ln[j], generation) == 0
            && power_of(ln[j]) <= u32::MAX - 1 by {
            let rc = line_cell(d, k, j);
            assert(is_interior(rc.0, rc.1));
        }
        lemma_line_gain_is_stamped_total(ln, generation);
    }
}

/// Score accounting: where no tile yet carries the stamp of the move, what a
/// move adds to the score is the sum of `2^p` over the tiles
/// `Number(p, generation)` of the grid after it, that is over the tiles its
/// merges made, counted line by line.
pub proof fn lemma_move_gain_is_stamped_total(s: Seq<Tile>, d: Direction, generation: Generation)
    requires
        s.len() == BOARD_CELLS,
        forall|r: int, c: int| is_interior(r, c) ==> stamped_value(#[trigger] cell(s, r, c), generation) == 0
            && power_of(cell(s, r, c)) < u32::MAX,
    ensures
        move_gain(s, d, generation) == stamped_of_lines(slide_cells(s, d, generation), d, generation, 4),
{
    lemma_gain_of_lines_stamped(s, d, generation, 4);
}

} // verus!
