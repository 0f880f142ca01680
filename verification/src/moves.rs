use vstd::prelude::*;
use crate::grid::{flat, Grid, Tile};
use crate::grid::{count_empty, lemma_empty_at, lemma_flat_bounds, lemma_flat_inverse,
    lemma_flat_unflat};

verus! {

/// The four move commands a caller can issue.
#[derive(Clone, Copy, Debug, PartialEq, Eq, Structural)]
pub enum MoveDirection {
    Up,
    Down,
    Left,
    Right,
}

/// Outcome of resolving one directional move: whether any cell changed,
/// and the sum of the values of all tiles created by merges this turn.
#[derive(Clone, Copy, Debug, PartialEq, Eq, Structural)]
pub struct MoveResult {
    pub moved: bool,
    pub score_delta: u32,
}

// A move is resolved line by line: a column for a vertical move, a row for
// a horizontal one. Within its line every cell has a resolution position;
// position 0 is the cell at the edge the tiles slide towards, so tiles
// nearest that edge are handled (and merged) first.

/// Row of the cell at resolution position `k` of line `j`.
pub open spec fn line_x(dir: MoveDirection, size: int, j: int, k: int) -> int {
    match dir {
        MoveDirection::Up => k,
        MoveDirection::Down => size - 1 - k,
        MoveDirection::Left => j,
        MoveDirection::Right => j,
    }
}

/// Column of the cell at resolution position `k` of line `j`.
pub open spec fn line_y(dir: MoveDirection, size: int, j: int, k: int) -> int {
    match dir {
        MoveDirection::Up => j,
        MoveDirection::Down => j,
        MoveDirection::Left => k,
        MoveDirection::Right => size - 1 - k,
    }
}

/// Which line the cell at `(x, y)` belongs to.
pub open spec fn line_of_cell(dir: MoveDirection, size: int, x: int, y: int) -> int {
    match dir {
        MoveDirection::Up => y,
        MoveDirection::Down => y,
        MoveDirection::Left => x,
        MoveDirection::Right => x,
    }
}

/// Resolution position of the cell at `(x, y)` within its line.
pub open spec fn pos_in_line(dir: MoveDirection, size: int, x: int, y: int) -> int {
    match dir {
        MoveDirection::Up => x,
        MoveDirection::Down => size - 1 - x,
        MoveDirection::Left => y,
        MoveDirection::Right => size - 1 - y,
    }
}

/// Line and position address cells bijectively: going from `(j, k)` to a
/// coordinate and back is the identity.
pub proof fn lemma_line_roundtrip(dir: MoveDirection, size: int, j: int, k: int)
    requires
        0 <= j < size,
        0 <= k < size,
    ensures
        0 <= line_x(dir, size, j, k) < size,
        0 <= line_y(dir, size, j, k) < size,
        line_of_cell(dir, size, line_x(dir, size, j, k), line_y(dir, size, j, k)) == j,
        pos_in_line(dir, size, line_x(dir, size, j, k), line_y(dir, size, j, k)) == k,
{
}

/// ... and going from a coordinate to `(j, k)` and back is the identity.
pub proof fn lemma_cell_roundtrip(dir: MoveDirection, size: int, x: int, y: int)
    requires
        0 <= x < size,
        0 <= y < size,
    ensures
        0 <= line_of_cell(dir, size, x, y) < size,
        0 <= pos_in_line(dir, size, x, y) < size,
        line_x(dir, size, line_of_cell(dir, size, x, y), pos_in_line(dir, size, x, y)) == x,
        line_y(dir, size, line_of_cell(dir, size, x, y), pos_in_line(dir, size, x, y)) == y,
{
}

/// The cells of line `j`, in resolution order (edge cell first).
pub open spec fn line_seq(cells: Seq<Option<Tile>>, size: int, dir: MoveDirection, j: int) -> Seq<
    Option<Tile>,
> {
    Seq::new(
        size as nat,
        |k: int| cells[flat(size, line_x(dir, size, j, k), line_y(dir, size, j, k))],
    )
}

/// The tiles of a line in resolution order, empty cells dropped.
pub open spec fn occupied(line: Seq<Option<Tile>>) -> Seq<Tile>
    decreases line.len(),
{
    if line.len() == 0 {
        Seq::empty()
    } else {
        match line.last() {
            Some(t) => occupied(line.drop_last()).push(t),
            None => occupied(line.drop_last()),
        }
    }
}

/// Whether the two tiles nearest the edge merge: equal values whose sum
/// still fits in a tile (the machine limit on tile values).
pub open spec fn front_merges(ts: Seq<Tile>) -> bool {
    ts.len() >= 2 && ts[0].value == ts[1].value && ts[0].value + ts[1].value <= u16::MAX
}

/// One pass of greedy merging over the stacked tiles of a line: the pair
/// nearest the target edge merges first, and a tile produced by a merge
/// never merges again in the same pass — three equal tiles leave the
/// third one unmerged.
pub open spec fn merged_tiles(ts: Seq<Tile>) -> Seq<Tile>
    decreases ts.len(),
{
    if ts.len() == 0 {
        Seq::empty()
    } else if front_merges(ts) {
        seq![Tile { value: (ts[0].value + ts[1].value) as u16 }] + merged_tiles(ts.skip(2))
    } else {
        seq![ts[0]] + merged_tiles(ts.skip(1))
    }
}

/// The score yielded by one merge pass: the sum of the values of all newly
/// created tiles.
pub open spec fn merge_score(ts: Seq<Tile>) -> int
    decreases ts.len(),
{
    if ts.len() == 0 {
        0
    } else if front_merges(ts) {
        ts[0].value + ts[1].value + merge_score(ts.skip(2))
    } else {
        merge_score(ts.skip(1))
    }
}

/// Tiles stacked against the edge, the rest of the line empty.
pub open spec fn pad(ts: Seq<Tile>, n: int) -> Seq<Option<Tile>> {
    Seq::new(n as nat, |k: int| if k < ts.len() { Some(ts[k]) } else { None })
}

/// A fully resolved line: its tiles compacted towards the edge with one
/// greedy merge pass applied.
pub open spec fn resolve_line_spec(line: Seq<Option<Tile>>) -> Seq<Option<Tile>> {
    pad(merged_tiles(occupied(line)), line.len() as int)
}

/// Whether resolving line `j` leaves it exactly as it is.
pub open spec fn line_unchanged(cells: Seq<Option<Tile>>, size: int, dir: MoveDirection, j: int) -> bool {
    resolve_line_spec(line_seq(cells, size, dir, j)) == line_seq(cells, size, dir, j)
}

/// The whole board after resolving every line of a move. Each line is
/// independent; the board result is the union of the per-line results.
pub open spec fn moved_cells(cells: Seq<Option<Tile>>, size: int, dir: MoveDirection) -> Seq<
    Option<Tile>,
> {
    Seq::new(
        cells.len(),
        |i: int|
            {
                let x = i / size;
                let y = i % size;
                resolve_line_spec(line_seq(cells, size, dir, line_of_cell(dir, size, x, y)))[
                    pos_in_line(dir, size, x, y)]
            },
    )
}

/// The total score of the lines before line `j`.
pub open spec fn move_delta_upto(cells: Seq<Option<Tile>>, size: int, dir: MoveDirection, j: int) -> int
    decreases j,
{
    if j <= 0 {
        0
    } else {
        move_delta_upto(cells, size, dir, j - 1) + merge_score(
            occupied(line_seq(cells, size, dir, j - 1)),
        )
    }
}

/// The total score of one move: the sum of the per-line merge scores.
pub open spec fn move_delta(cells: Seq<Option<Tile>>, size: int, dir: MoveDirection) -> int {
    move_delta_upto(cells, size, dir, size)
}

/// Whether the move changes the board at all.
pub open spec fn move_changes(cells: Seq<Option<Tile>>, size: int, dir: MoveDirection) -> bool {
    moved_cells(cells, size, dir) != cells
}

/// The sum of the values of a stack of tiles.
pub open spec fn tiles_sum(ts: Seq<Tile>) -> int
    decreases ts.len(),
{
    if ts.len() == 0 {
        0
    } else {
        ts[0].value + tiles_sum(ts.skip(1))
    }
}

pub proof fn lemma_tiles_sum_bound(ts: Seq<Tile>)
    ensures
        0 <= tiles_sum(ts) <= 65535 * ts.len(),
    decreases ts.len(),
{
    if ts.len() > 0 {
        lemma_tiles_sum_bound(ts.skip(1));
    }
}

/// A merge pass never scores more than the total value it started from.
pub proof fn lemma_merge_score_bounds(ts: Seq<Tile>)
    ensures
        0 <= merge_score(ts) <= tiles_sum(ts),
    decreases ts.len(),
{
    if ts.len() == 0 {
    } else if front_merges(ts) {
        assert(ts.skip(1).skip(1) =~= ts.skip(2));
        assert(ts.skip(1)[0] == ts[1]);
        lemma_merge_score_bounds(ts.skip(2));
        lemma_tiles_sum_bound(ts.skip(2));
        assert(tiles_sum(ts) == ts[0].value + tiles_sum(ts.skip(1)));
        assert(tiles_sum(ts.skip(1)) == ts[1].value + tiles_sum(ts.skip(1).skip(1)));
    } else {
        lemma_merge_score_bounds(ts.skip(1));
        lemma_tiles_sum_bound(ts.skip(1));
        assert(tiles_sum(ts) == ts[0].value + tiles_sum(ts.skip(1)));
    }
}

pub proof fn lemma_occupied_len(line: Seq<Option<Tile>>)
    ensures
        occupied(line).len() <= line.len(),
    decreases line.len(),
{
    if line.len() > 0 {
        lemma_occupied_len(line.drop_last());
    }
}

pub proof fn lemma_merged_len(ts: Seq<Tile>)
    ensures
        merged_tiles(ts).len() <= ts.len(),
    decreases ts.len(),
{
    if ts.len() == 0 {
    } else if front_merges(ts) {
        lemma_merged_len(ts.skip(2));
    } else {
        lemma_merged_len(ts.skip(1));
    }
}

/// A merge pass that loses no tile merged nothing and left the stack as
/// it was.
pub proof fn lemma_merged_identity(ts: Seq<Tile>)
    requires
        merged_tiles(ts).len() == ts.len(),
    ensures
        merged_tiles(ts) == ts,
    decreases ts.len(),
{
    if ts.len() == 0 {
        assert(merged_tiles(ts) =~= ts);
    } else if front_merges(ts) {
        lemma_merged_len(ts.skip(2));
    } else {
        lemma_merged_len(ts.skip(1));
        lemma_merged_identity(ts.skip(1));
        assert(merged_tiles(ts) =~= ts);
    }
}

/// A line whose every cell is occupied is exactly its own tile stack.
pub proof fn lemma_occupied_full(line: Seq<Option<Tile>>)
    requires
        occupied(line).len() == line.len(),
    ensures
        pad(occupied(line), line.len() as int) == line,
    decreases line.len(),
{
    lemma_occupied_len(line);
    if line.len() == 0 {
        assert(pad(occupied(line), line.len() as int) =~= line);
    } else {
        lemma_occupied_len(line.drop_last());
        match line.last() {
            Some(t) => {
                lemma_occupied_full(line.drop_last());
                assert(pad(occupied(line), line.len() as int) =~= line) by {
                    assert forall|k: int| 0 <= k < line.len() implies pad(
                        occupied(line),
                        line.len() as int,
                    )[k] == line[k] by {
                        if k < line.len() - 1 {
                            assert(occupied(line)[k] == occupied(line.drop_last())[k]);
                            assert(pad(occupied(line.drop_last()), line.len() - 1)[k]
                                == line.drop_last()[k]);
                        }
                    }
                }
            },
            None => {},
        }
    }
}

/// A line that resolution changes has an empty cell at its far end
/// afterwards: tiles were lost to merges, or they never filled the line.
pub proof fn lemma_changed_line_has_empty(line: Seq<Option<Tile>>)
    requires
        line.len() >= 1,
        resolve_line_spec(line) != line,
    ensures
        resolve_line_spec(line)[line.len() - 1] is None,
{
    let occ = occupied(line);
    let m = merged_tiles(occ);
    lemma_occupied_len(line);
    lemma_merged_len(occ);
    if m.len() == line.len() {
        lemma_merged_identity(occ);
        lemma_occupied_full(line);
        assert(false);
    }
}

/// The engine's pure core: resolves one line.
///
/// Returns the resolved line, the merge score, and whether the line
/// changed.
fn resolve_line(line: &Vec<Option<Tile>>) -> (r: (Vec<Option<Tile>>, u32, bool))
    requires
        line@.len() <= 255,
    ensures
        r.0@ == resolve_line_spec(line@),
        r.0@.len() == line@.len(),
        r.1 as int == merge_score(occupied(line@)),
        r.2 == (r.0@ != line@),
{
    // collect the occupied cells in resolution order
    let mut occ: Vec<Tile> = Vec::new();
    let mut i: usize = 0;
    while i < line.len()
        invariant
            0 <= i <= line@.len(),
            occ@ == occupied(line@.take(i as int)),
            occ@.len() <= i,
        decreases line@.len() - i,
    {
        proof {
            assert(line@.take(i as int + 1).drop_last() =~= line@.take(i as int));
            assert(line@.take(i as int + 1).last() == line@[i as int]);
        }
        match line[i] {
            Some(t) => occ.push(t),
            None => {},
        }
        i += 1;
    }
    proof {
        assert(line@.take(line@.len() as int) =~= line@);
    }

    // one greedy merge pass over the stack
    let mut tiles: Vec<Tile> = Vec::new();
    let mut delta: u32 = 0;
    let mut i: usize = 0;
    proof {
        assert(occ@.skip(0) =~= occ@);
        assert(Seq::<Tile>::empty() + merged_tiles(occ@) =~= merged_tiles(occ@));
        lemma_merge_score_bounds(occ@);
    }
    while i < occ.len()
        invariant
            0 <= i <= occ@.len(),
            occ@.len() <= 255,
            tiles@ + merged_tiles(occ@.skip(i as int)) == merged_tiles(occ@),
            delta as int + merge_score(occ@.skip(i as int)) == merge_score(occ@),
            delta as int <= merge_score(occ@),
        decreases occ@.len() - i,
    {
        proof {
            lemma_merge_score_bounds(occ@);
            lemma_tiles_sum_bound(occ@);
            assert(occ@.skip(i as int)[0] == occ@[i as int]);
            if i + 1 < occ@.len() {
                assert(occ@.skip(i as int)[1] == occ@[i as int + 1]);
            }
        }
        let can_merge = i + 1 < occ.len() && occ[i].value == occ[i + 1].value && occ[i].value
            <= u16::MAX - occ[i + 1].value;
        if can_merge {
            proof {
                assert(front_merges(occ@.skip(i as int)));
                assert(occ@.skip(i as int).skip(2) =~= occ@.skip(i as int + 2));
                lemma_merge_score_bounds(occ@.skip(i as int + 2));
                assert(tiles@ + merged_tiles(occ@.skip(i as int)) =~= (tiles@.push(
                    Tile { value: (occ@[i as int].value + occ@[i as int + 1].value) as u16 },
                )) + merged_tiles(occ@.skip(i as int + 2)));
            }
            let v: u16 = occ[i].value + occ[i + 1].value;
            tiles.push(Tile { value: v });
            delta = delta + (v as u32);
            i += 2;
        } else {
            proof {
                assert(!front_merges(occ@.skip(i as int)));
                assert(occ@.skip(i as int).skip(1) =~= occ@.skip(i as int + 1));
                assert(tiles@ + merged_tiles(occ@.skip(i as int)) =~= (tiles@.push(
                    occ@[i as int],
                )) + merged_tiles(occ@.skip(i as int + 1)));
            }
            tiles.push(occ[i]);
            i += 1;
        }
    }
    proof {
        assert(occ@.skip(occ@.len() as int) =~= Seq::<Tile>::empty());
        assert(tiles@ + merged_tiles(occ@.skip(occ@.len() as int)) =~= tiles@);
        assert(tiles@ == merged_tiles(occ@));
    }

    // stack the result against the edge, empties after
    let mut out: Vec<Option<Tile>> = Vec::new();
    let mut k: usize = 0;
    proof {
        lemma_merged_len(occ@);
        lemma_occupied_len(line@);
    }
    while k < line.len()
        invariant
            0 <= k <= line@.len(),
            out@.len() == k,
            tiles@ == merged_tiles(occupied(line@)),
            forall|m: int| 0 <= m < k ==> out@[m] == resolve_line_spec(line@)[m],
        decreases line@.len() - k,
    {
        if k < tiles.len() {
            out.push(Some(tiles[k]));
        } else {
            out.push(None);
        }
        k += 1;
    }
    proof {
        assert(out@ =~= resolve_line_spec(line@));
    }

    // did anything change?
    let mut changed = false;
    let mut k: usize = 0;
    while k < line.len()
        invariant
            0 <= k <= line@.len(),
            out@.len() == line@.len(),
            !changed ==> forall|m: int| 0 <= m < k ==> out@[m] == line@[m],
            changed ==> out@ != line@,
        decreases line@.len() - k,
    {
        if cells_differ(out[k], line[k]) {
            changed = true;
        }
        k += 1;
    }
    proof {
        if !changed {
            assert(out@ =~= line@);
        }
    }
    (out, delta, changed)
}

/// Value equality of two cells.
fn cells_differ(a: Option<Tile>, b: Option<Tile>) -> (r: bool)
    ensures
        r == (a != b),
{
    match (a, b) {
        (None, None) => false,
        (Some(x), Some(y)) => x.value != y.value,
        _ => true,
    }
}

/// The total score of the first `j` lines never exceeds what their tiles
/// can carry.
pub proof fn lemma_move_delta_upto_bounds(
    cells: Seq<Option<Tile>>,
    size: int,
    dir: MoveDirection,
    j: int,
)
    requires
        0 <= j,
        1 <= size,
    ensures
        0 <= move_delta_upto(cells, size, dir, j) <= 65535 * size * j,
    decreases j,
{
    if j > 0 {
        lemma_move_delta_upto_bounds(cells, size, dir, j - 1);
        let line = line_seq(cells, size, dir, j - 1);
        lemma_occupied_len(line);
        lemma_merge_score_bounds(occupied(line));
        lemma_tiles_sum_bound(occupied(line));
        assert(65535 * occupied(line).len() <= 65535 * size) by (nonlinear_arith)
            requires
                occupied(line).len() <= size,
        ;
        assert(65535 * size * (j - 1) + 65535 * size == 65535 * size * j) by (nonlinear_arith);
    }
}

/// Stacking tiles against the edge and dropping the empties afterwards
/// gives back exactly those tiles.
pub proof fn lemma_occupied_of_pad(ts: Seq<Tile>, n: int)
    requires
        0 <= ts.len() <= n,
    ensures
        occupied(pad(ts, n)) == ts,
    decreases n,
{
    if n == 0 {
        assert(occupied(pad(ts, n)) =~= ts);
    } else if ts.len() < n {
        assert(pad(ts, n).drop_last() =~= pad(ts, n - 1));
        assert(pad(ts, n).last() is None);
        lemma_occupied_of_pad(ts, n - 1);
    } else {
        assert(pad(ts, n).drop_last() =~= pad(ts.drop_last(), n - 1));
        assert(pad(ts, n).last() == Some(ts.last()));
        lemma_occupied_of_pad(ts.drop_last(), n - 1);
        assert(occupied(pad(ts, n)) =~= ts);
    }
}

/// A merge pass that changes nothing scores nothing.
pub proof fn lemma_merged_no_score(ts: Seq<Tile>)
    requires
        merged_tiles(ts) == ts,
    ensures
        merge_score(ts) == 0,
    decreases ts.len(),
{
    if ts.len() == 0 {
    } else if front_merges(ts) {
        lemma_merged_len(ts.skip(2));
        assert(false);
    } else {
        assert(merged_tiles(ts.skip(1)) =~= ts.skip(1)) by {
            assert(merged_tiles(ts) == seq![ts[0]] + merged_tiles(ts.skip(1)));
            assert forall|m: int| 0 <= m < merged_tiles(ts.skip(1)).len() implies merged_tiles(
                ts.skip(1),
            )[m] == ts.skip(1)[m] by {
                assert(merged_tiles(ts)[m + 1] == merged_tiles(ts.skip(1))[m]);
            }
        }
        lemma_merged_no_score(ts.skip(1));
    }
}

/// A line that resolution leaves unchanged yields no score.
pub proof fn lemma_line_unchanged_score(line: Seq<Option<Tile>>)
    requires
        resolve_line_spec(line) == line,
    ensures
        merge_score(occupied(line)) == 0,
{
    let occ = occupied(line);
    let m = merged_tiles(occ);
    lemma_occupied_len(line);
    lemma_merged_len(occ);
    lemma_occupied_of_pad(m, line.len() as int);
    assert(occupied(resolve_line_spec(line)) == occ);
    lemma_merged_no_score(occ);
}

proof fn lemma_delta_upto_zero(cells: Seq<Option<Tile>>, size: int, dir: MoveDirection, j: int)
    requires
        0 <= j <= size,
        forall|j2: int| 0 <= j2 < size ==> line_unchanged(cells, size, dir, j2),
    ensures
        move_delta_upto(cells, size, dir, j) == 0,
    decreases j,
{
    if j > 0 {
        lemma_delta_upto_zero(cells, size, dir, j - 1);
        assert(line_unchanged(cells, size, dir, j - 1));
        lemma_line_unchanged_score(line_seq(cells, size, dir, j - 1));
    }
}

/// A move that changes nothing scores nothing: a blocked move can alter
/// neither the board nor the score.
pub proof fn lemma_unmoved_delta_zero(cells: Seq<Option<Tile>>, size: int, dir: MoveDirection)
    requires
        1 <= size,
        cells.len() == size * size,
        !move_changes(cells, size, dir),
    ensures
        move_delta(cells, size, dir) == 0,
{
    lemma_changes_iff_some_line(cells, size, dir);
    lemma_delta_upto_zero(cells, size, dir, size);
}

/// A move changes the board exactly when some line of it resolves to
/// something new: the lines partition the cells.
pub proof fn lemma_changes_iff_some_line(cells: Seq<Option<Tile>>, size: int, dir: MoveDirection)
    requires
        1 <= size,
        cells.len() == size * size,
    ensures
        move_changes(cells, size, dir) <==> exists|j: int|
            0 <= j < size && !line_unchanged(cells, size, dir, j),
{
    let moved = moved_cells(cells, size, dir);
    if exists|j: int| 0 <= j < size && !line_unchanged(cells, size, dir, j) {
        let j = choose|j: int| 0 <= j < size && !line_unchanged(cells, size, dir, j);
        let line = line_seq(cells, size, dir, j);
        let res = resolve_line_spec(line);
        assert(res.len() == line.len());
        assert(!forall|k: int| 0 <= k < size ==> res[k] == line[k]) by {
            if forall|k: int| 0 <= k < size ==> res[k] == line[k] {
                assert(res =~= line);
            }
        }
        let k = choose|k: int| !(0 <= k < size ==> res[k] == line[k]);
        lemma_line_roundtrip(dir, size, j, k);
        let x = line_x(dir, size, j, k);
        let y = line_y(dir, size, j, k);
        lemma_flat_bounds(size, x, y);
        lemma_flat_inverse(size, x, y);
        let i = flat(size, x, y);
        assert(moved[i] == res[k]);
        assert(cells[i] == line[k]);
        assert(moved != cells);
    } else {
        assert forall|i: int| 0 <= i < cells.len() implies moved[i] == cells[i] by {
            lemma_flat_unflat(size, i);
            let x = i / size;
            let y = i % size;
            lemma_cell_roundtrip(dir, size, x, y);
            let j = line_of_cell(dir, size, x, y);
            let k = pos_in_line(dir, size, x, y);
            assert(line_unchanged(cells, size, dir, j));
            assert(line_seq(cells, size, dir, j)[k] == cells[flat(
                size,
                line_x(dir, size, j, k),
                line_y(dir, size, j, k),
            )]);
        }
        assert(moved =~= cells);
    }
}

/// A move that changes the board leaves at least one empty cell behind:
/// either a merge freed a cell, or the changed line was not full and its
/// tiles now rest at the edge.
pub proof fn lemma_move_leaves_empty(cells: Seq<Option<Tile>>, size: int, dir: MoveDirection)
    requires
        1 <= size,
        cells.len() == size * size,
        move_changes(cells, size, dir),
    ensures
        count_empty(moved_cells(cells, size, dir)) >= 1,
{
    lemma_changes_iff_some_line(cells, size, dir);
    let j = choose|j: int| 0 <= j < size && !line_unchanged(cells, size, dir, j);
    let line = line_seq(cells, size, dir, j);
    lemma_changed_line_has_empty(line);
    let k = size - 1;
    lemma_line_roundtrip(dir, size, j, k);
    let x = line_x(dir, size, j, k);
    let y = line_y(dir, size, j, k);
    lemma_flat_bounds(size, x, y);
    lemma_flat_inverse(size, x, y);
    let i = flat(size, x, y);
    assert(moved_cells(cells, size, dir)[i] == resolve_line_spec(line)[k]);
    lemma_empty_at(moved_cells(cells, size, dir), i);
}

/// Exec counterpart of the line geometry: the coordinate of resolution
/// position `k` of line `j`.
fn line_cell(dir: MoveDirection, size: u8, j: u8, k: u8) -> (r: (u8, u8))
    requires
        j < size,
        k < size,
    ensures
        r.0 as int == line_x(dir, size as int, j as int, k as int),
        r.1 as int == line_y(dir, size as int, j as int, k as int),
{
    match dir {
        MoveDirection::Up => (k, j),
        MoveDirection::Down => (size - 1 - k, j),
        MoveDirection::Left => (j, k),
        MoveDirection::Right => (j, size - 1 - k),
    }
}

/// Reads line `j` of the grid in resolution order.
fn read_line(grid: &Grid, dir: MoveDirection, j: u8) -> (line: Vec<Option<Tile>>)
    requires
        grid.wf(),
        (j as int) < grid.spec_size(),
    ensures
        line@ == line_seq(grid.cells(), grid.spec_size(), dir, j as int),
{
    let size = grid.get_size();
    let mut line: Vec<Option<Tile>> = Vec::new();
    let mut k: u8 = 0;
    while k < size
        invariant
            grid.wf(),
            size as int == grid.spec_size(),
            (j as int) < grid.spec_size(),
            0 <= (k as int) <= (size as int),
            line@.len() == k as int,
            forall|m: int|
                0 <= m < k as int ==> line@[m] == line_seq(
                    grid.cells(),
                    grid.spec_size(),
                    dir,
                    j as int,
                )[m],
        decreases size - k,
    {
        proof {
            lemma_line_roundtrip(dir, size as int, j as int, k as int);
        }
        let (x, y) = line_cell(dir, size, j, k);
        let c = grid.cell_at(x, y);
        line.push(c);
        k += 1;
    }
    proof {
        assert(line@ =~= line_seq(grid.cells(), grid.spec_size(), dir, j as int));
    }
    line
}

/// The move resolver. It keeps no state of its own: it is the algorithm
/// that turns a board and a direction into the next board, the score the
/// move yields, and whether anything changed. A typed direction and a
/// well-formed board leave no malformed input to report.
pub struct MoveEngine;

impl MoveEngine {
    /// Applies one move to the board: every line is compacted towards the
    /// direction's edge with one greedy merge pass, each line
    /// independently. The result reports whether any cell changed and the
    /// total value of the tiles created by merges.
    pub fn apply(grid: &mut Grid, dir: MoveDirection) -> (r: MoveResult)
        requires
            old(grid).wf(),
        ensures
            final(grid).wf(),
            final(grid).spec_size() == old(grid).spec_size(),
            final(grid).cells() == moved_cells(old(grid).cells(), old(grid).spec_size(), dir),
            r.score_delta as int == move_delta(old(grid).cells(), old(grid).spec_size(), dir),
            r.moved == move_changes(old(grid).cells(), old(grid).spec_size(), dir),
    {
        let size = grid.get_size();
        let ghost n = grid.spec_size();
        let ghost cells0 = grid.cells();
        let ghost movedc = moved_cells(cells0, n, dir);
        let mut delta: u32 = 0;
        let mut any_moved = false;
        let mut j: u8 = 0;
        while j < size
            invariant
                grid.wf(),
                grid.spec_size() == n,
                size as int == n,
                cells0.len() == n * n,
                grid.cells().len() == cells0.len(),
                movedc == moved_cells(cells0, n, dir),
                0 <= (j as int) <= n,
                forall|i: int|
                    0 <= i < cells0.len() ==> #[trigger] grid.cells()[i] == (
                    if line_of_cell(dir, n, i / n, i % n) < j as int {
                        movedc[i]
                    } else {
                        cells0[i]
                    }),
                delta as int == move_delta_upto(cells0, n, dir, j as int),
                any_moved == !(forall|j2: int|
                    0 <= j2 < j as int ==> line_unchanged(cells0, n, dir, j2)),
            decreases size - j,
        {
            let line = read_line(grid, dir, j);
            proof {
                assert(line@ =~= line_seq(cells0, n, dir, j as int)) by {
                    assert forall|k: int| 0 <= k < n implies line@[k] == line_seq(
                        cells0,
                        n,
                        dir,
                        j as int,
                    )[k] by {
                        lemma_line_roundtrip(dir, n, j as int, k);
                        let x = line_x(dir, n, j as int, k);
                        let y = line_y(dir, n, j as int, k);
                        lemma_flat_bounds(n, x, y);
                        lemma_flat_inverse(n, x, y);
                        assert(grid.cells()[flat(n, x, y)] == cells0[flat(n, x, y)]);
                    }
                }
            }
            let (resolved, line_delta, line_changed) = resolve_line(&line);
            proof {
                lemma_occupied_len(line@);
                lemma_merge_score_bounds(occupied(line@));
                lemma_tiles_sum_bound(occupied(line@));
                lemma_move_delta_upto_bounds(cells0, n, dir, j as int);
                assert(65535 * occupied(line@).len() <= 65535 * n) by (nonlinear_arith)
                    requires
                        occupied(line@).len() <= n,
                ;
                assert(65535 * n * (j as int) + 65535 * n <= 65535 * 255 * 255)
                    by (nonlinear_arith)
                    requires
                        1 <= n <= 255,
                        0 <= (j as int) <= n - 1,
                ;
                assert(move_delta_upto(cells0, n, dir, j as int + 1) == move_delta_upto(
                    cells0,
                    n,
                    dir,
                    j as int,
                ) + merge_score(occupied(line_seq(cells0, n, dir, j as int))));
            }
            delta = delta + line_delta;
            let ghost any_before = any_moved;
            if line_changed {
                any_moved = true;
            }
            proof {
                assert(line_changed == !line_unchanged(cells0, n, dir, j as int));
                assert(any_moved == !(forall|j2: int|
                    0 <= j2 < j as int + 1 ==> line_unchanged(cells0, n, dir, j2))) by {
                    if line_changed {
                        assert(!line_unchanged(cells0, n, dir, j as int));
                    } else if any_before {
                        let jw = choose|j2: int|
                            !(0 <= j2 < j as int ==> line_unchanged(cells0, n, dir, j2));
                        assert(!(0 <= jw < j as int + 1 ==> line_unchanged(cells0, n, dir, jw)));
                    }
                }
            }
            // write the resolved line back; only the cells of line j change
            proof {
                assert forall|i: int| 0 <= i < cells0.len() implies #[trigger] grid.cells()[i] == (
                if line_of_cell(dir, n, i / n, i % n) < j as int || (line_of_cell(dir, n, i / n, i % n)
                    == j as int && pos_in_line(dir, n, i / n, i % n) < 0) {
                    movedc[i]
                } else {
                    cells0[i]
                }) by {
                    lemma_flat_unflat(n, i);
                    lemma_cell_roundtrip(dir, n, i / n, i % n);
                }
            }
            let mut k: u8 = 0;
            while k < size
                invariant
                    grid.wf(),
                    grid.spec_size() == n,
                    size as int == n,
                    cells0.len() == n * n,
                    grid.cells().len() == cells0.len(),
                    movedc == moved_cells(cells0, n, dir),
                    0 <= (j as int) < n,
                    j < size,
                    0 <= (k as int) <= n,
                    resolved@ == resolve_line_spec(line_seq(cells0, n, dir, j as int)),
                    resolved@.len() == n,
                    forall|i: int|
                        0 <= i < cells0.len() ==> #[trigger] grid.cells()[i] == (
                        if line_of_cell(dir, n, i / n, i % n) < j as int || (line_of_cell(
                            dir,
                            n,
                            i / n,
                            i % n,
                        ) == j as int && pos_in_line(dir, n, i / n, i % n) < k as int) {
                            movedc[i]
                        } else {
                            cells0[i]
                        }),
                decreases size - k,
            {
                proof {
                    lemma_line_roundtrip(dir, n, j as int, k as int);
                }
                let (x, y) = line_cell(dir, size, j, k);
                let c = resolved[k as usize];
                let ghost gpre = grid.cells();
                grid.set_cell(x, y, c);
                proof {
                    lemma_flat_bounds(n, x as int, y as int);
                    lemma_flat_inverse(n, x as int, y as int);
                    let t = flat(n, x as int, y as int);
                    assert(movedc[t] == resolve_line_spec(
                        line_seq(cells0, n, dir, j as int),
                    )[k as int]);
                    assert forall|i: int| 0 <= i < cells0.len() implies #[trigger] grid.cells()[i]
                        == (if line_of_cell(dir, n, i / n, i % n) < j as int || (line_of_cell(
                        dir,
                        n,
                        i / n,
                        i % n,
                    ) == j as int && pos_in_line(dir, n, i / n, i % n) < k as int + 1) {
                        movedc[i]
                    } else {
                        cells0[i]
                    }) by {
                        lemma_flat_unflat(n, i);
                        let xi = i / n;
                        let yi = i % n;
                        lemma_cell_roundtrip(dir, n, xi, yi);
                        if i != t {
                            assert(grid.cells()[i] == gpre[i]);
                            if line_of_cell(dir, n, xi, yi) == j as int && pos_in_line(
                                dir,
                                n,
                                xi,
                                yi,
                            ) == k as int {
                                assert(xi == line_x(dir, n, j as int, k as int));
                                assert(yi == line_y(dir, n, j as int, k as int));
                                assert(false);
                            }
                        }
                    }
                }
                k += 1;
            }
            proof {
                assert forall|i: int| 0 <= i < cells0.len() implies #[trigger] grid.cells()[i] == (
                if line_of_cell(dir, n, i / n, i % n) < j as int + 1 {
                    movedc[i]
                } else {
                    cells0[i]
                }) by {
                    lemma_flat_unflat(n, i);
                    lemma_cell_roundtrip(dir, n, i / n, i % n);
                }
            }
            j += 1;
        }
        proof {
            assert forall|i: int| 0 <= i < cells0.len() implies grid.cells()[i] == movedc[i] by {
                lemma_flat_unflat(n, i);
                lemma_cell_roundtrip(dir, n, i / n, i % n);
            }
            assert(grid.cells() =~= movedc);
            lemma_changes_iff_some_line(cells0, n, dir);
            assert(any_moved == move_changes(cells0, n, dir)) by {
                if any_moved {
                    let jw = choose|j2: int|
                        !(0 <= j2 < n ==> line_unchanged(cells0, n, dir, j2));
                    assert(0 <= jw < n && !line_unchanged(cells0, n, dir, jw));
                } else if move_changes(cells0, n, dir) {
                    let jw = choose|j2: int|
                        0 <= j2 < n && !line_unchanged(cells0, n, dir, j2);
                    assert(!(0 <= jw < n ==> line_unchanged(cells0, n, dir, jw)));
                }
            }
        }
        MoveResult { moved: any_moved, score_delta: delta }
    }

    /// Reports whether applying `dir` would change the board, without
    /// touching it: the dry run that loss detection uses.
    pub fn would_change(grid: &Grid, dir: MoveDirection) -> (r: bool)
        requires
            grid.wf(),
        ensures
            r == move_changes(grid.cells(), grid.spec_size(), dir),
    {
        let size = grid.get_size();
        let ghost n = grid.spec_size();
        let mut found = false;
        let mut j: u8 = 0;
        while j < size
            invariant
                grid.wf(),
                grid.spec_size() == n,
                size as int == n,
                0 <= (j as int) <= n,
                found == !(forall|j2: int|
                    0 <= j2 < j as int ==> line_unchanged(grid.cells(), n, dir, j2)),
            decreases size - j,
        {
            let line = read_line(grid, dir, j);
            let (_resolved, _line_delta, line_changed) = resolve_line(&line);
            let ghost found_before = found;
            if line_changed {
                found = true;
            }
            proof {
                assert(line_changed == !line_unchanged(grid.cells(), n, dir, j as int));
                assert(found == !(forall|j2: int|
                    0 <= j2 < j as int + 1 ==> line_unchanged(grid.cells(), n, dir, j2))) by {
                    if line_changed {
                        assert(!line_unchanged(grid.cells(), n, dir, j as int));
                    } else if found_before {
                        let jw = choose|j2: int|
                            !(0 <= j2 < j as int ==> line_unchanged(grid.cells(), n, dir, j2));
                        assert(!(0 <= jw < j as int + 1 ==> line_unchanged(
                            grid.cells(),
                            n,
                            dir,
                            jw,
                        )));
                    }
                }
            }
            j += 1;
        }
        proof {
            lemma_changes_iff_some_line(grid.cells(), n, dir);
            assert(found == move_changes(grid.cells(), n, dir)) by {
                if found {
                    let jw = choose|j2: int|
                        !(0 <= j2 < n ==> line_unchanged(grid.cells(), n, dir, j2));
                    assert(0 <= jw < n && !line_unchanged(grid.cells(), n, dir, jw));
                } else if move_changes(grid.cells(), n, dir) {
                    let jw = choose|j2: int|
                        0 <= j2 < n && !line_unchanged(grid.cells(), n, dir, j2);
                    assert(!(0 <= jw < n ==> line_unchanged(grid.cells(), n, dir, jw)));
                }
            }
        }
        found
    }
}

} // verus!
