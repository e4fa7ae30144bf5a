//! One line of the grid, read from the wall it slides into, and how a move
//! turns it into its new contents.
use vstd::prelude::*;
use vstd::arithmetic::power2::{pow2, lemma2_to64, lemma_pow2_strictly_increases, lemma_pow2_pos};
use vstd::bits::lemma_u32_shl_is_mul;

use crate::colour::Power;
use crate::tile::{Generation, Tile, NUMBER_TILES_PER_LINE};

verus! {

/// The power of a numbered tile; zero for any other cell.
pub open spec fn power_of(t: Tile) -> Power {
    match t {
        Tile::Number(p, _) => p,
        _ => 0,
    }
}

/// Whether `next` merges into `last`, the tile placed just before it toward
/// the wall: both are numbers of one power and neither was produced by a merge
/// of the move stamped `generation`.
pub open spec fn can_merge(last: Tile, next: Tile, generation: Generation) -> bool {
    match (last, next) {
        (Tile::Number(p, a), Tile::Number(q, b)) => p == q && a != generation && b != generation,
        _ => false,
    }
}

/// The tile that two tiles of power `p` merge into during the move `generation`.
pub open spec fn merged_tile(p: Power, generation: Generation) -> Tile {
    Tile::Number((p + 1) as Power, generation)
}

/// Whether tile `t` merges into the last of the tiles `acc` packed so far.
pub open spec fn merges_onto(acc: Seq<Tile>, t: Tile, generation: Generation) -> bool {
    &&& t is Number
    &&& acc.len() > 0
    &&& can_merge(acc.last(), t, generation)
}

/// Whether the last tile of `line` merges into what the tiles before it have
/// become.
pub open spec fn merges_at_end(line: Seq<Tile>, generation: Generation) -> bool {
    line.len() > 0 && merges_onto(merged(line.drop_last(), generation), line.last(), generation)
}

/// The numbered tiles of `line`, packed toward the wall and merged: each tile
/// in turn either merges into the tile packed just before it or is packed
/// after it.
pub open spec fn merged(line: Seq<Tile>, generation: Generation) -> Seq<Tile>
    decreases line.len(),
{
    if line.len() == 0 {
        Seq::empty()
    } else {
        let acc = merged(line.drop_last(), generation);
        let t = line.last();
        if !(t is Number) {
            acc
        } else if merges_onto(acc, t, generation) {
            acc.drop_last().push(merged_tile(power_of(t), generation))
        } else {
            acc.push(t)
        }
    }
}

/// What the merges of `line` add to the score: `2^p` for each merge that
/// makes a tile of power `p`.
pub open spec fn merge_gain(line: Seq<Tile>, generation: Generation) -> nat
    decreases line.len(),
{
    if line.len() == 0 {
        0
    } else if merges_at_end(line, generation) {
        merge_gain(line.drop_last(), generation) + pow2((power_of(line.last()) + 1) as nat)
    } else {
        merge_gain(line.drop_last(), generation)
    }
}

/// The number of merges in `line`.
pub open spec fn merge_count(line: Seq<Tile>, generation: Generation) -> nat
    decreases line.len(),
{
    if line.len() == 0 {
        0
    } else if merges_at_end(line, generation) {
        merge_count(line.drop_last(), generation) + 1
    } else {
        merge_count(line.drop_last(), generation)
    }
}

/// The line after the move: the merged tiles from the wall, then empty cells.
pub open spec fn slid(line: Seq<Tile>, generation: Generation) -> Seq<Tile> {
    let m = merged(line, generation);
    Seq::new(line.len(), |j: int| if j < m.len() { m[j] } else { Tile::Empty() })
}

/// Every numbered tile of `line` has a power of at most `m`.
pub open spec fn powers_at_most(line: Seq<Tile>, m: nat) -> bool {
    forall|j: int| 0 <= j < line.len() ==> power_of(#[trigger] line[j]) <= m
}

/// The merged prefix holds numbers only; a tile not stamped by this move is
/// one of the line's own tiles, and a stamped one is at most one power higher.
pub proof fn lemma_merged_shape(line: Seq<Tile>, generation: Generation, m: nat)
    requires
        powers_at_most(line, m),
    ensures
        merged(line, generation).len() + merge_count(line, generation) <= line.len(),
        merge_gain(line, generation) <= merge_count(line, generation) * pow2(m + 1),
        forall|j: int|
            0 <= j < merged(line, generation).len() ==> {
                let t = #[trigger] merged(line, generation)[j];
                &&& t is Number
                &&& power_of(t) <= m + 1
                &&& (t->Number_1 != generation ==> power_of(t) <= m)
            },
    decreases line.len(),
{
    if line.len() > 0 {
        let pre = line.drop_last();
        assert(powers_at_most(pre, m)) by {
            assert forall|j: int| 0 <= j < pre.len() implies power_of(#[trigger] pre[j]) <= m by {
                assert(pre[j] == line[j]);
            }
        }
        lemma_merged_shape(pre, generation, m);
        assert(power_of(line[line.len() - 1]) <= m);
        if merges_at_end(line, generation) {
            let acc = merged(pre, generation);
            assert(acc[acc.len() - 1] is Number);
            assert(power_of(line.last()) + 1 <= m + 1);
            if power_of(line.last()) + 1 < m + 1 {
                lemma_pow2_strictly_increases((power_of(line.last()) + 1) as nat, m + 1);
            }
            assert(merge_count(line, generation) * pow2(m + 1) == merge_count(pre, generation)
                * pow2(m + 1) + pow2(m + 1)) by (nonlinear_arith)
                requires
                    merge_count(line, generation) == merge_count(pre, generation) + 1,
            ;
        }
    }
}

/// If four times `2^(m + 1)` fits in `u32`, then `m + 1` is below 30.
pub proof fn lemma_power_fits(m: nat)
    requires
        4 * pow2(m + 1) <= u32::MAX,
    ensures
        m + 1 < 30,
{
    lemma2_to64();
    if m + 1 >= 30 {
        if m + 1 > 30 {
            lemma_pow2_strictly_increases(30, m + 1);
        }
    }
}

/// The numbered tiles of `line`, in order.
pub open spec fn numbers_of(line: Seq<Tile>) -> Seq<Tile>
    decreases line.len(),
{
    if line.len() == 0 {
        Seq::empty()
    } else if line.last() is Number {
        numbers_of(line.drop_last()).push(line.last())
    } else {
        numbers_of(line.drop_last())
    }
}

/// Each merge packs two numbered tiles into one; without merges the packed
/// tiles are the line's numbered tiles, unchanged and in order.
pub proof fn lemma_merge_count(line: Seq<Tile>, generation: Generation)
    ensures
        merged(line, generation).len() + merge_count(line, generation) == numbers_of(line).len(),
        forall|j: int|
            0 <= j < merged(line, generation).len() ==> #[trigger] merged(line, generation)[j] is Number,
        merge_count(line, generation) == 0 ==> merge_gain(line, generation) == 0,
        merge_count(line, generation) == 0 ==> merged(line, generation) == numbers_of(line),
    decreases line.len(),
{
    if line.len() > 0 {
        lemma_merge_count(line.drop_last(), generation);
    }
}

/// A line with a number in every cell is its own list of numbered tiles.
pub proof fn lemma_numbers_of_full(line: Seq<Tile>)
    requires
        forall|j: int| 0 <= j < line.len() ==> #[trigger] line[j] is Number,
    ensures
        numbers_of(line) == line,
    decreases line.len(),
{
    if line.len() > 0 {
        let pre = line.drop_last();
        assert forall|j: int| 0 <= j < pre.len() implies #[trigger] pre[j] is Number by {
            assert(pre[j] == line[j]);
        }
        lemma_numbers_of_full(pre);
        assert(pre.push(line.last()) =~= line);
    }
}

/// A line of four that a move leaves as it is gains nothing; one that the
/// move changes ends with an empty cell.
pub proof fn lemma_slid_line(line: Seq<Tile>, generation: Generation)
    requires
        line.len() == 4,
    ensures
        slid(line, generation) == line ==> merge_gain(line, generation) == 0,
        slid(line, generation) != line ==> slid(line, generation)[3] is Empty,
    decreases line.len(),
{
    lemma_merge_count(line, generation);
    lemma_numbers_of_len(line);
    let m = merged(line, generation);
    if slid(line, generation) == line {
        lemma_numbers_of_split(line, m.len() as int);
    } else if m.len() >= 4 {
        lemma_numbers_of_full(line);
        assert(slid(line, generation) =~= line);
    }
}

/// A line has at most as many numbered tiles as cells, and as many only
/// where every cell holds a number.
pub proof fn lemma_numbers_of_len(line: Seq<Tile>)
    ensures
        numbers_of(line).len() <= line.len(),
        numbers_of(line).len() == line.len() ==> forall|j: int|
            0 <= j < line.len() ==> #[trigger] line[j] is Number,
    decreases line.len(),
{
    if line.len() > 0 {
        let pre = line.drop_last();
        lemma_numbers_of_len(pre);
        if numbers_of(line).len() == line.len() {
            assert forall|j: int| 0 <= j < line.len() implies #[trigger] line[j] is Number by {
                if j < pre.len() {
                    assert(pre[j] == line[j]);
                }
            }
        }
    }
}

/// A line whose first `n` cells hold numbers and whose other cells do not
/// has `n` numbered tiles.
pub proof fn lemma_numbers_of_split(line: Seq<Tile>, n: int)
    requires
        0 <= n <= line.len(),
        forall|j: int| 0 <= j < n ==> #[trigger] line[j] is Number,
        forall|j: int| n <= j < line.len() ==> !(#[trigger] line[j] is Number),
    ensures
        numbers_of(line).len() == n,
    decreases line.len(),
{
    if line.len() > 0 {
        let pre = line.drop_last();
        if line.len() > n {
            assert forall|j: int| n <= j < pre.len() implies !(#[trigger] pre[j] is Number) by {
                assert(pre[j] == line[j]);
            }
            assert forall|j: int| 0 <= j < n implies #[trigger] pre[j] is Number by {
                assert(pre[j] == line[j]);
            }
            lemma_numbers_of_split(pre, n);
        } else {
            assert forall|j: int| 0 <= j < n - 1 implies #[trigger] pre[j] is Number by {
                assert(pre[j] == line[j]);
            }
            lemma_numbers_of_split(pre, n - 1);
        }
    }
}

/// The tiles packed so far, `acc`, after packing the numbered tile `t`.
pub open spec fn pack(acc: Seq<Tile>, t: Tile, generation: Generation) -> Seq<Tile> {
    if merges_onto(acc, t, generation) {
        acc.drop_last().push(merged_tile(power_of(t), generation))
    } else {
        acc.push(t)
    }
}

/// Packs the numbered tiles `xs` in turn after the tiles `acc`.
pub open spec fn pack_all(acc: Seq<Tile>, xs: Seq<Tile>, generation: Generation) -> Seq<Tile>
    decreases xs.len(),
{
    if xs.len() == 0 {
        acc
    } else {
        pack_all(pack(acc, xs[0], generation), xs.drop_first(), generation)
    }
}

/// Numbered tiles merged pair by pair from the wall: the first two merge
/// into one tile when they can and both leave the list, otherwise the first
/// stays as it is. Each tile thus takes part in at most one merge.
pub open spec fn merge_pairs(ns: Seq<Tile>, generation: Generation) -> Seq<Tile>
    decreases ns.len(),
{
    if ns.len() < 2 {
        ns
    } else if can_merge(ns[0], ns[1], generation) {
        seq![merged_tile(power_of(ns[0]), generation)] + merge_pairs(
            ns.subrange(2, ns.len() as int),
            generation,
        )
    } else {
        seq![ns[0]] + merge_pairs(ns.drop_first(), generation)
    }
}

/// Whether every cell of `xs` holds a number.
pub open spec fn all_numbers(xs: Seq<Tile>) -> bool {
    forall|j: int| 0 <= j < xs.len() ==> #[trigger] xs[j] is Number
}

proof fn lemma_pack_all_push(acc: Seq<Tile>, xs: Seq<Tile>, x: Tile, generation: Generation)
    ensures
        pack_all(acc, xs.push(x), generation) == pack(pack_all(acc, xs, generation), x, generation),
    decreases xs.len(),
{
    let ys = xs.push(x);
    if xs.len() > 0 {
        assert(ys.drop_first() =~= xs.drop_first().push(x));
        assert(ys[0] == xs[0]);
        let a1 = pack(acc, xs[0], generation);
        lemma_pack_all_push(a1, xs.drop_first(), x, generation);
        assert(pack_all(acc, ys, generation) == pack_all(a1, ys.drop_first(), generation));
        assert(pack_all(acc, xs, generation) == pack_all(a1, xs.drop_first(), generation));
    } else {
        assert(ys.drop_first() =~= Seq::<Tile>::empty());
        assert(ys[0] == x);
        let a1 = pack(acc, x, generation);
        assert(pack_all(acc, ys, generation) == pack_all(a1, ys.drop_first(), generation));
        assert(pack_all(a1, Seq::<Tile>::empty(), generation) == a1);
        assert(pack_all(acc, xs, generation) == acc);
    }
}

proof fn lemma_pack_all_prefix(p: Seq<Tile>, acc: Seq<Tile>, xs: Seq<Tile>, generation: Generation)
    requires
        acc.len() > 0,
    ensures
        pack_all(p + acc, xs, generation) == p + pack_all(acc, xs, generation),
    decreases xs.len(),
{
    if xs.len() > 0 {
        let t = xs[0];
        assert((p + acc).last() == acc.last());
        if merges_onto(acc, t, generation) {
            assert((p + acc).drop_last().push(merged_tile(power_of(t), generation)) =~= p + acc.drop_last().push(
                merged_tile(power_of(t), generation),
            ));
        } else {
            assert((p + acc).push(t) =~= p + acc.push(t));
        }
        lemma_pack_all_prefix(p, pack(acc, t, generation), xs.drop_first(), generation);
    }
}

proof fn lemma_merged_is_pack_all(line: Seq<Tile>, generation: Generation)
    ensures
        merged(line, generation) == pack_all(Seq::empty(), numbers_of(line), generation),
    decreases line.len(),
{
    if line.len() > 0 {
        lemma_merged_is_pack_all(line.drop_last(), generation);
        if line.last() is Number {
            lemma_pack_all_push(Seq::empty(), numbers_of(line.drop_last()), line.last(), generation);
        }
    }
}

proof fn lemma_numbers_of_all_numbers(line: Seq<Tile>)
    ensures
        all_numbers(numbers_of(line)),
    decreases line.len(),
{
    if line.len() > 0 {
        lemma_numbers_of_all_numbers(line.drop_last());
    }
}

proof fn lemma_pack_all_pairs(ns: Seq<Tile>, generation: Generation)
    requires
        all_numbers(ns),
    ensures
        pack_all(Seq::empty(), ns, generation) == merge_pairs(ns, generation),
    decreases ns.len(),
{
    let e = Seq::<Tile>::empty();
    if ns.len() == 1 {
        assert(pack(e, ns[0], generation) =~= ns);
        assert(ns.drop_first() =~= e);
        assert(pack_all(e, ns, generation) == pack_all(ns, e, generation));
        assert(pack_all(ns, e, generation) == ns);
    } else if ns.len() >= 2 {
        let a = ns[0];
        let b = ns[1];
        let rest = ns.subrange(2, ns.len() as int);
        let tail = ns.drop_first();
        assert(tail.drop_first() =~= rest);
        assert(tail[0] == b);
        assert(pack(e, a, generation) =~= seq![a]);
        assert(all_numbers(tail)) by {
            assert forall|j: int| 0 <= j < tail.len() implies #[trigger] tail[j] is Number by {
                assert(tail[j] == ns[j + 1]);
            }
        }
        assert(all_numbers(rest)) by {
            assert forall|j: int| 0 <= j < rest.len() implies #[trigger] rest[j] is Number by {
                assert(rest[j] == ns[j + 2]);
            }
        }
        // packing starts with `a` alone, then takes `b`
        assert(pack_all(e, ns, generation) == pack_all(seq![a], tail, generation));
        assert(pack_all(seq![a], tail, generation) == pack_all(pack(seq![a], b, generation), rest, generation));
        lemma_pack_all_pairs(tail, generation);
        lemma_pack_all_pairs(rest, generation);
        if can_merge(a, b, generation) {
            let m = merged_tile(power_of(b), generation);
            assert(power_of(a) == power_of(b));
            assert(pack(seq![a], b, generation) =~= seq![m]);
            if rest.len() > 0 {
                let r0 = rest[0];
                assert(pack(seq![m], r0, generation) =~= seq![m] + seq![r0]);
                assert(pack(e, r0, generation) =~= seq![r0]);
                lemma_pack_all_prefix(seq![m], seq![r0], rest.drop_first(), generation);
            } else {
                assert(seq![m] =~= seq![m] + e);
            }
        } else {
            assert(pack(seq![a], b, generation) =~= seq![a] + seq![b]);
            assert(pack(e, b, generation) =~= seq![b]);
            lemma_pack_all_prefix(seq![a], seq![b], rest, generation);
        }
    }
}

/// Merge-once: within one move every tile takes part in at most one merge.
/// What a line packs into is exactly its numbered tiles merged pair by pair
/// from the wall, where each merge consumes two equal tiles that no merge of
/// this move made, and yields one tile a single power higher.
pub proof fn lemma_each_tile_merges_once(line: Seq<Tile>, generation: Generation)
    ensures
        merged(line, generation) == merge_pairs(numbers_of(line), generation),
{
    lemma_merged_is_pack_all(line, generation);
    lemma_numbers_of_all_numbers(line);
    lemma_pack_all_pairs(numbers_of(line), generation);
}

/// A line of numbers in which no two neighbours share a power packs into
/// itself: nothing merges and nothing moves.
pub proof fn lemma_distinct_neighbours_stay(line: Seq<Tile>, generation: Generation)
    requires
        all_numbers(line),
        forall|j: int| 0 <= j < line.len() - 1 ==> power_of(#[trigger] line[j]) != power_of(line[j + 1]),
    ensures
        merged(line, generation) == line,
        slid(line, generation) == line,
    decreases line.len(),
{
    if line.len() > 0 {
        let pre = line.drop_last();
        assert(all_numbers(pre)) by {
            assert forall|j: int| 0 <= j < pre.len() implies #[trigger] pre[j] is Number by {
                assert(pre[j] == line[j]);
            }
        }
        assert forall|j: int| 0 <= j < pre.len() - 1 implies power_of(#[trigger] pre[j]) != power_of(
            pre[j + 1],
        ) by {
            assert(pre[j] == line[j] && pre[j + 1] == line[j + 1]);
        }
        lemma_distinct_neighbours_stay(pre, generation);
        if pre.len() > 0 {
            assert(power_of(line[pre.len() - 1]) != power_of(line[pre.len() as int]));
        }
        assert(pre.push(line.last()) =~= line);
        assert(slid(line, generation) =~= line);
    }
}

/// A line of numbers in which no neighbours can merge packs into itself.
pub proof fn lemma_no_pair_stays(line: Seq<Tile>, generation: Generation)
    requires
        all_numbers(line),
        forall|j: int| 0 <= j < line.len() - 1 ==> !can_merge(#[trigger] line[j], line[j + 1], generation),
    ensures
        merged(line, generation) == line,
        slid(line, generation) == line,
    decreases line.len(),
{
    if line.len() > 0 {
        let pre = line.drop_last();
        assert(all_numbers(pre)) by {
            assert forall|j: int| 0 <= j < pre.len() implies #[trigger] pre[j] is Number by {
                assert(pre[j] == line[j]);
            }
        }
        assert forall|j: int| 0 <= j < pre.len() - 1 implies !can_merge(#[trigger] pre[j], pre[j + 1], generation) by {
            assert(pre[j] == line[j] && pre[j + 1] == line[j + 1]);
        }
        lemma_no_pair_stays(pre, generation);
        if pre.len() > 0 {
            assert(!can_merge(line[pre.len() - 1], line[pre.len() as int], generation));
        }
        assert(pre.push(line.last()) =~= line);
        assert(slid(line, generation) =~= line);
    }
}

/// A line of numbers without merges has no neighbours that can merge.
proof fn lemma_no_merge_no_pair(line: Seq<Tile>, generation: Generation)
    requires
        all_numbers(line),
        merge_count(line, generation) == 0,
    ensures
        merged(line, generation) == line,
        forall|j: int| 0 <= j < line.len() - 1 ==> !can_merge(#[trigger] line[j], line[j + 1], generation),
    decreases line.len(),
{
    if line.len() > 0 {
        let pre = line.drop_last();
        assert(all_numbers(pre)) by {
            assert forall|j: int| 0 <= j < pre.len() implies #[trigger] pre[j] is Number by {
                assert(pre[j] == line[j]);
            }
        }
        lemma_no_merge_no_pair(pre, generation);
        assert(pre.push(line.last()) =~= line);
        assert forall|j: int| 0 <= j < line.len() - 1 implies !can_merge(#[trigger] line[j], line[j + 1], generation) by {
            if j < pre.len() - 1 {
                assert(pre[j] == line[j] && pre[j + 1] == line[j + 1]);
            } else {
                assert(pre.last() == line[j]);
            }
        }
    }
}

/// A line of numbers changes under a move exactly when two of its
/// neighbours can merge.
pub proof fn lemma_full_line_moves_iff_pair(line: Seq<Tile>, generation: Generation)
    requires
        all_numbers(line),
    ensures
        (slid(line, generation) != line) <==> exists|j: int|
            0 <= j < line.len() - 1 && #[trigger] can_merge(line[j], line[j + 1], generation),
{
    if slid(line, generation) == line {
        lemma_merge_count(line, generation);
        lemma_numbers_of_full(line);
        let m = merged(line, generation);
        if m.len() < line.len() {
            assert(slid(line, generation)[line.len() - 1] == line[line.len() - 1]);
        }
        lemma_no_merge_no_pair(line, generation);
    } else {
        if !(exists|j: int| 0 <= j < line.len() - 1 && #[trigger] can_merge(line[j], line[j + 1], generation)) {
            lemma_no_pair_stays(line, generation);
        }
    }
}

/// The number of empty cells of `line`.
pub open spec fn empty_count(line: Seq<Tile>) -> nat
    decreases line.len(),
{
    if line.len() == 0 {
        0
    } else if line.last() is Empty {
        empty_count(line.drop_last()) + 1
    } else {
        empty_count(line.drop_last())
    }
}

/// Whether every cell of `line` is empty or holds a number.
pub open spec fn all_playable(line: Seq<Tile>) -> bool {
    forall|j: int| 0 <= j < line.len() ==> (#[trigger] line[j]).is_playable()
}

/// In a line of playable cells, each cell is either empty or numbered.
pub proof fn lemma_empty_count_playable(line: Seq<Tile>)
    requires
        all_playable(line),
    ensures
        empty_count(line) + numbers_of(line).len() == line.len(),
    decreases line.len(),
{
    if line.len() > 0 {
        let pre = line.drop_last();
        assert(all_playable(pre)) by {
            assert forall|j: int| 0 <= j < pre.len() implies (#[trigger] pre[j]).is_playable() by {
                assert(pre[j] == line[j]);
            }
        }
        lemma_empty_count_playable(pre);
    }
}

/// A move opens one cell of a playable line for each merge on it.
pub proof fn lemma_slid_opens_per_merge(line: Seq<Tile>, generation: Generation)
    requires
        all_playable(line),
    ensures
        all_playable(slid(line, generation)),
        empty_count(slid(line, generation)) == empty_count(line) + merge_count(line, generation),
{
    let m = merged(line, generation);
    let t = slid(line, generation);
    lemma_merge_count(line, generation);
    lemma_numbers_of_len(line);
    assert forall|j: int| 0 <= j < t.len() implies (#[trigger] t[j]).is_playable() by {
        if j < m.len() {
            assert(m[j] is Number);
        }
    }
    lemma_numbers_of_split(t, m.len() as int);
    lemma_empty_count_playable(line);
    lemma_empty_count_playable(t);
}

/// The value `2^p` of a tile `Number(p, generation)` stamped by the move
/// `generation`; zero for any other cell.
pub open spec fn stamped_value(t: Tile, generation: Generation) -> nat {
    match t {
        Tile::Number(p, g) => if g == generation {
            pow2(p as nat)
        } else {
            0
        },
        _ => 0,
    }
}

/// The sum of `stamped_value` over the cells of `line`.
pub open spec fn stamped_total(line: Seq<Tile>, generation: Generation) -> nat
    decreases line.len(),
{
    if line.len() == 0 {
        0
    } else {
        stamped_total(line.drop_last(), generation) + stamped_value(line.last(), generation)
    }
}

/// Whether no cell of `line` already carries the stamp `generation`.
pub open spec fn none_stamped(line: Seq<Tile>, generation: Generation) -> bool {
    forall|j: int| 0 <= j < line.len() ==> stamped_value(#[trigger] line[j], generation) == 0
}

proof fn lemma_stamped_total_merged(line: Seq<Tile>, generation: Generation)
    requires
        none_stamped(line, generation),
        powers_at_most(line, (u32::MAX - 1) as nat),
    ensures
        stamped_total(merged(line, generation), generation) == merge_gain(line, generation),
    decreases line.len(),
{
    if line.len() > 0 {
        let pre = line.drop_last();
        assert(none_stamped(pre, generation)) by {
            assert forall|j: int| 0 <= j < pre.len() implies stamped_value(#[trigger] pre[j], generation) == 0 by {
                assert(pre[j] == line[j]);
            }
        }
        assert(powers_at_most(pre, (u32::MAX - 1) as nat)) by {
            assert forall|j: int| 0 <= j < pre.len() implies power_of(#[trigger] pre[j]) <= u32::MAX - 1 by {
                assert(pre[j] == line[j]);
            }
        }
        lemma_stamped_total_merged(pre, generation);
        let acc = merged(pre, generation);
        let t = line.last();
        assert(stamped_value(line[line.len() - 1], generation) == 0);
        assert(power_of(line[line.len() - 1]) <= u32::MAX - 1);
        if t is Number {
            if merges_onto(acc, t, generation) {
                let x = merged_tile(power_of(t), generation);
                assert(stamped_value(x, generation) == pow2((power_of(t) + 1) as nat));
                assert(acc.drop_last().push(x).drop_last() =~= acc.drop_last());
                assert(acc.last()->Number_1 != generation);
                assert(stamped_value(acc.last(), generation) == 0);
                assert(acc.drop_last().push(acc.last()) =~= acc);
                assert(stamped_total(acc, generation) == stamped_total(acc.drop_last(), generation)
                    + stamped_value(acc.last(), generation));
            } else {
                assert(acc.push(t).drop_last() =~= acc);
            }
        }
    }
}

proof fn lemma_stamped_total_append_empty(x: Seq<Tile>, n: int, generation: Generation)
    requires
        0 <= n,
    ensures
        stamped_total(x + Seq::new(n as nat, |i: int| Tile::Empty()), generation) == stamped_total(
            x,
            generation,
        ),
    decreases n,
{
    let y = x + Seq::new(n as nat, |i: int| Tile::Empty());
    if n == 0 {
        assert(y =~= x);
    } else {
        lemma_stamped_total_append_empty(x, n - 1, generation);
        assert(y.drop_last() =~= x + Seq::new((n - 1) as nat, |i: int| Tile::Empty()));
    }
}

/// Score accounting for one line: where no tile yet carries the stamp of the
/// move, what the move adds to the score is the sum of `2^p` over the tiles
/// `Number(p, generation)` that the line holds after it: the tiles it merged.
pub proof fn lemma_line_gain_is_stamped_total(line: Seq<Tile>, generation: Generation)
    requires
        none_stamped(line, generation),
        powers_at_most(line, (u32::MAX - 1) as nat),
    ensures
        merge_gain(line, generation) == stamped_total(slid(line, generation), generation),
{
    lemma_stamped_total_merged(line, generation);
    lemma_merge_count(line, generation);
    lemma_numbers_of_len(line);
    let m = merged(line, generation);
    let n = line.len() - m.len();
    assert(slid(line, generation) =~= m + Seq::new(n as nat, |i: int| Tile::Empty()));
    lemma_stamped_total_append_empty(m, n, generation);
}

/// Whether `next` merges into `last` during the move `generation`.
pub fn merges_into(last: Tile, next: Tile, generation: Generation) -> (r: bool)
    ensures
        r == can_merge(last, next, generation),
{
    match (last, next) {
        (Tile::Number(p, a), Tile::Number(q, b)) => p == q && a != generation && b != generation,
        _ => false,
    }
}

/// Slides one line toward its index 0 and merges it, returning the new line
/// and what its merges add to the score.
///
/// `max_power` bounds the powers on the line, and four merges into the power
/// above it must fit in `u32`: that bounds the gain.
pub fn slide_line(line: [Tile; NUMBER_TILES_PER_LINE], generation: Generation, max_power: Power) -> (r: (
    [Tile; NUMBER_TILES_PER_LINE],
    u32,
))
    requires
        powers_at_most(line@, max_power as nat),
        4 * pow2(max_power as nat + 1) <= u32::MAX,
    ensures
        r.0@ == slid(line@, generation),
        r.1 == merge_gain(line@, generation),
        r.1 <= 4 * pow2(max_power as nat + 1),
{
    let mut out: [Tile; NUMBER_TILES_PER_LINE] = [Tile::Empty(); NUMBER_TILES_PER_LINE];
    let mut k: usize = 0;
    let mut gain: u32 = 0;
    let mut j: usize = 0;
    proof {
        lemma_merged_shape(line@, generation, max_power as nat);
        lemma_pow2_pos(max_power as nat + 1);
        lemma_power_fits(max_power as nat);
    }
    while j < NUMBER_TILES_PER_LINE
        invariant
            0 <= j <= NUMBER_TILES_PER_LINE,
            powers_at_most(line@, max_power as nat),
            4 * pow2(max_power as nat + 1) <= u32::MAX,
            max_power + 1 < 30,
            k == merged(line@.take(j as int), generation).len(),
            k <= j,
            forall|i: int| 0 <= i < k ==> out@[i] == merged(line@.take(j as int), generation)[i],
            forall|i: int| k <= i < NUMBER_TILES_PER_LINE ==> out@[i] == Tile::Empty(),
            gain == merge_gain(line@.take(j as int), generation),
            gain <= merge_count(line@.take(j as int), generation) * pow2(max_power as nat + 1),
            merge_count(line@.take(j as int), generation) <= j,
        decreases NUMBER_TILES_PER_LINE - j,
    {
        let ghost pre = line@.take(j as int);
        let ghost cur = line@.take(j as int + 1);
        assert(cur.drop_last() =~= pre);
        assert(cur.last() == line@[j as int]);
        proof {
            assert(powers_at_most(cur, max_power as nat)) by {
                assert forall|i: int| 0 <= i < cur.len() implies power_of(#[trigger] cur[i])
                    <= max_power by {
                    assert(cur[i] == line@[i]);
                }
            }
            lemma_merged_shape(cur, generation, max_power as nat);
            lemma_merged_shape(pre, generation, max_power as nat);
        }
        let t = line[j];
        match t {
            Tile::Number(p, _) => {
                if k > 0 && merges_into(out[k - 1], t, generation) {
                    assert(out@[k - 1] == merged(pre, generation).last());
                    assert(merges_at_end(cur, generation));
                    assert(power_of(line@[j as int]) <= max_power);
                    assert(p <= max_power);
                    proof {
                        if p + 1 < max_power + 1 {
                            lemma_pow2_strictly_increases(p as nat + 1, max_power as nat + 1);
                        }
                        lemma_u32_shl_is_mul(1, (p + 1) as u32);
                    }
                    assert(gain + pow2(p as nat + 1) <= (merge_count(pre, generation) + 1) * pow2(
                        max_power as nat + 1,
                    )) by (nonlinear_arith)
                        requires
                            gain <= merge_count(pre, generation) * pow2(max_power as nat + 1),
                            pow2(p as nat + 1) <= pow2(max_power as nat + 1),
                    ;
                    assert((merge_count(pre, generation) + 1) * pow2(max_power as nat + 1) <= 4
                        * pow2(max_power as nat + 1)) by (nonlinear_arith)
                        requires
                            merge_count(pre, generation) + 1 <= 4,
                    ;
                    out[k - 1] = Tile::Number(p + 1, generation);
                    gain = gain + (1u32 << (p + 1));
                    assert(merged(cur, generation) =~= merged(pre, generation).drop_last().push(
                        merged_tile(p, generation),
                    ));
                } else {
                    assert(!merges_at_end(cur, generation));
                    out[k] = t;
                    k = k + 1;
                    assert(merged(cur, generation) =~= merged(pre, generation).push(t));
                }
            },
            _ => {
                assert(merged(cur, generation) =~= merged(pre, generation));
            },
        }
        j = j + 1;
    }
    assert(line@.take(4) =~= line@);
    assert(out@ =~= slid(line@, generation));
    assert(gain <= 4 * pow2(max_power as nat + 1)) by (nonlinear_arith)
        requires
            gain <= merge_count(line@, generation) * pow2(max_power as nat + 1),
            merge_count(line@, generation) <= 4,
    ;
    (out, gain)
}

} // verus!
