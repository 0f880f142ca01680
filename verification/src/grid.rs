use vstd::prelude::*;
use vstd::arithmetic::div_mod::lemma_fundamental_div_mod_converse;
use vstd::multiset::Multiset;
use crate::errors::GameError;
use crate::grid_coord::GridCoord;

verus! {

/// A single board piece. Pure value type: merging two tiles produces a new
/// tile with the doubled value, no identity is tracked across moves.
#[derive(Clone, Copy, Debug, PartialEq, Eq, Structural)]
pub struct Tile {
    pub value: u16,
}

/// A `size` x `size` matrix of cells, each empty or holding one tile.
/// The size is fixed at construction (at least 2) and the grid exclusively
/// owns its tiles; readers receive copies, never aliases.
///
/// Cells are stored row-major: the cell at `(x, y)` lives at flat index
/// `x * size + y`.
#[derive(Debug)]
pub struct Grid {
    data: Vec<Option<Tile>>,
    size: u8,
}

/// Flat row-major index of the cell at `(x, y)` on a board of side `size`.
pub open spec fn flat(size: int, x: int, y: int) -> int {
    x * size + y
}

/// The multiset contribution of one cell: the tile's value, or nothing.
pub open spec fn cell_values(c: Option<Tile>) -> Multiset<u16> {
    match c {
        Some(t) => Multiset::singleton(t.value),
        None => Multiset::empty(),
    }
}

/// The numeric contribution of one cell: the tile's value, or zero.
pub open spec fn cell_value(c: Option<Tile>) -> int {
    match c {
        Some(t) => t.value as int,
        None => 0,
    }
}

/// The multiset of all tile values held by the given cells.
pub open spec fn tile_values(s: Seq<Option<Tile>>) -> Multiset<u16>
    decreases s.len(),
{
    if s.len() == 0 {
        Multiset::empty()
    } else {
        tile_values(s.drop_last()).add(cell_values(s.last()))
    }
}

/// The sum of all tile values held by the given cells.
pub open spec fn value_sum(s: Seq<Option<Tile>>) -> int
    decreases s.len(),
{
    if s.len() == 0 {
        0
    } else {
        value_sum(s.drop_last()) + cell_value(s.last())
    }
}

/// How many of the given cells are empty.
pub open spec fn count_empty(s: Seq<Option<Tile>>) -> int
    decreases s.len(),
{
    if s.len() == 0 {
        0
    } else {
        count_empty(s.drop_last()) + if s.last() is None { 1int } else { 0int }
    }
}

/// How many of the given cells hold a tile.
pub open spec fn count_occupied(s: Seq<Option<Tile>>) -> int
    decreases s.len(),
{
    if s.len() == 0 {
        0
    } else {
        count_occupied(s.drop_last()) + if s.last() is Some { 1int } else { 0int }
    }
}

/// The coordinates of the empty cells among the first `n`, in ascending
/// flat (row-major) order.
pub open spec fn empty_positions_upto(s: Seq<Option<Tile>>, size: int, n: int) -> Seq<GridCoord>
    decreases n,
{
    if n <= 0 {
        Seq::empty()
    } else {
        let rest = empty_positions_upto(s, size, n - 1);
        if s[n - 1] is None {
            rest.push(GridCoord { x: ((n - 1) / size) as u8, y: ((n - 1) % size) as u8 })
        } else {
            rest
        }
    }
}

/// The coordinates of all empty cells, in row-major order (`x` outer,
/// `y` inner).
pub open spec fn spec_empty_positions(s: Seq<Option<Tile>>, size: int) -> Seq<GridCoord> {
    empty_positions_upto(s, size, s.len() as int)
}

pub proof fn lemma_flat_bounds(size: int, x: int, y: int)
    requires
        0 <= x < size,
        0 <= y < size,
    ensures
        0 <= flat(size, x, y) < size * size,
{
    assert(0 <= x * size + y < size * size) by (nonlinear_arith)
        requires
            0 <= x < size,
            0 <= y < size,
    ;
}

pub proof fn lemma_flat_inverse(size: int, x: int, y: int)
    requires
        0 <= x < size,
        0 <= y < size,
    ensures
        flat(size, x, y) / size == x,
        flat(size, x, y) % size == y,
{
    lemma_fundamental_div_mod_converse(flat(size, x, y), size, x, y);
}

pub proof fn lemma_flat_unflat(size: int, i: int)
    requires
        1 <= size,
        0 <= i < size * size,
    ensures
        0 <= i / size < size,
        0 <= i % size < size,
        flat(size, i / size, i % size) == i,
{
    let x = i / size;
    let y = i % size;
    assert(i == size * x + y && 0 <= y < size) by {
        vstd::arithmetic::div_mod::lemma_fundamental_div_mod(i, size);
        vstd::arithmetic::div_mod::lemma_mod_bound(i, size);
    }
    assert(x * size == size * x) by (nonlinear_arith);
    assert(0 <= x < size) by (nonlinear_arith)
        requires
            1 <= size,
            0 <= i < size * size,
            i == size * x + y,
            0 <= y < size,
    ;
}

/// Distinct in-bounds coordinates occupy distinct flat indices.
pub proof fn lemma_flat_injective(size: int, x1: int, y1: int, x2: int, y2: int)
    requires
        0 <= x1 < size,
        0 <= y1 < size,
        0 <= x2 < size,
        0 <= y2 < size,
        flat(size, x1, y1) == flat(size, x2, y2),
    ensures
        x1 == x2 && y1 == y2,
{
    lemma_flat_inverse(size, x1, y1);
    lemma_flat_inverse(size, x2, y2);
}

/// Replacing the cell at index `i` by `c` adjusts the value multiset,
/// the value sum and the two cell counts by exactly the difference
/// between the old and the new content of that one cell.
pub proof fn lemma_cells_update(s: Seq<Option<Tile>>, i: int, c: Option<Tile>)
    requires
        0 <= i < s.len(),
    ensures
        forall|v: u16|
            tile_values(s.update(i, c)).count(v) as int == tile_values(s).count(v) as int
                - cell_values(s[i]).count(v) as int + cell_values(c).count(v) as int,
        value_sum(s.update(i, c)) == value_sum(s) - cell_value(s[i]) + cell_value(c),
        count_empty(s.update(i, c)) == count_empty(s)
            - (if s[i] is None { 1int } else { 0int })
            + (if c is None { 1int } else { 0int }),
        count_occupied(s.update(i, c)) == count_occupied(s)
            - (if s[i] is Some { 1int } else { 0int })
            + (if c is Some { 1int } else { 0int }),
    decreases s.len(),
{
    broadcast use vstd::multiset::group_multiset_axioms;

    if i == s.len() - 1 {
        assert(s.update(i, c).drop_last() =~= s.drop_last());
        assert(s.update(i, c).last() == c);
        assert forall|v: u16|
            tile_values(s.update(i, c)).count(v) as int == tile_values(s).count(v) as int
                - cell_values(s[i]).count(v) as int + cell_values(c).count(v) as int by {
            assert(tile_values(s.update(i, c)) == tile_values(s.drop_last()).add(cell_values(c)));
            assert(tile_values(s) == tile_values(s.drop_last()).add(cell_values(s.last())));
        }
    } else {
        assert(s.update(i, c).drop_last() =~= s.drop_last().update(i, c));
        assert(s.update(i, c).last() == s.last());
        assert(s.drop_last()[i] == s[i]);
        lemma_cells_update(s.drop_last(), i, c);
        assert forall|v: u16|
            tile_values(s.update(i, c)).count(v) as int == tile_values(s).count(v) as int
                - cell_values(s[i]).count(v) as int + cell_values(c).count(v) as int by {
            assert(tile_values(s.update(i, c)) == tile_values(s.drop_last().update(i, c)).add(
                cell_values(s.last()),
            ));
            assert(tile_values(s) == tile_values(s.drop_last()).add(cell_values(s.last())));
        }
    }
}

/// On a board whose every cell is empty — as a fresh board is — the
/// empty-cell count is the full cell count.
pub proof fn lemma_all_cells_empty(s: Seq<Option<Tile>>)
    requires
        forall|i: int| 0 <= i < s.len() ==> s[i] is None,
    ensures
        count_empty(s) == s.len(),
        count_occupied(s) == 0,
    decreases s.len(),
{
    if s.len() > 0 {
        assert(forall|i: int| 0 <= i < s.drop_last().len() ==> s.drop_last()[i] == s[i]);
        lemma_all_cells_empty(s.drop_last());
    }
}

/// Both cell counts are bounded by the number of cells.
pub proof fn lemma_counts_nonneg(s: Seq<Option<Tile>>)
    ensures
        0 <= count_empty(s) <= s.len(),
        0 <= count_occupied(s) <= s.len(),
    decreases s.len(),
{
    if s.len() > 0 {
        lemma_counts_nonneg(s.drop_last());
    }
}

/// A board with an empty cell has a positive empty-cell count.
pub proof fn lemma_empty_at(s: Seq<Option<Tile>>, i: int)
    requires
        0 <= i < s.len(),
        s[i] is None,
    ensures
        count_empty(s) >= 1,
    decreases s.len(),
{
    lemma_counts_nonneg(s.drop_last());
    if i < s.len() - 1 {
        assert(s.drop_last()[i] == s[i]);
        lemma_empty_at(s.drop_last(), i);
    }
}

/// Census law: the empty cells and the occupied cells together account for
/// every cell of the board.
pub proof fn lemma_cell_census(s: Seq<Option<Tile>>)
    ensures
        count_empty(s) + count_occupied(s) == s.len(),
    decreases s.len(),
{
    if s.len() > 0 {
        lemma_cell_census(s.drop_last());
    }
}

impl Grid {
    /// The board's side length, as a mathematical integer.
    pub closed spec fn spec_size(&self) -> int {
        self.size as int
    }

    /// The board's cells in row-major order.
    pub closed spec fn cells(&self) -> Seq<Option<Tile>> {
        self.data@
    }

    /// Structural soundness: a playable side length and storage for every
    /// cell. Established by the constructor and preserved by every method.
    pub open spec fn wf(&self) -> bool {
        &&& 2 <= self.spec_size() <= 255
        &&& self.cells().len() == self.spec_size() * self.spec_size()
    }

    /// Whether a coordinate addresses a cell of this board.
    pub open spec fn in_bounds(&self, c: GridCoord) -> bool {
        (c.x as int) < self.spec_size() && (c.y as int) < self.spec_size()
    }

    /// Whether a merge of the tile at `from` into the tile at `to` is
    /// legal: two distinct in-bounds cells, both occupied, equal values.
    pub open spec fn merge_applies(&self, from: GridCoord, to: GridCoord) -> bool {
        &&& self.in_bounds(from)
        &&& self.in_bounds(to)
        &&& from != to
        &&& self.spec_cell(from.x as int, from.y as int) is Some
        &&& self.spec_cell(to.x as int, to.y as int) is Some
        &&& cell_value(self.spec_cell(to.x as int, to.y as int)) == cell_value(
            self.spec_cell(from.x as int, from.y as int),
        )
    }

    /// The content of the cell at `(x, y)`.
    pub open spec fn spec_cell(&self, x: int, y: int) -> Option<Tile> {
        self.cells()[flat(self.spec_size(), x, y)]
    }

    /// Builds an all-empty board of the given side length; a side length
    /// below 2 is not playable and is refused.
    pub fn new(size: u8) -> (r: Result<Grid, GameError>)
        ensures
            size < 2 ==> r == Err::<Grid, GameError>(GameError::InvalidSize),
            size >= 2 ==> (r matches Ok(g) && g.wf() && g.spec_size() == size as int
                && forall|i: int| 0 <= i < g.cells().len() ==> g.cells()[i] is None),
    {
        if size < 2 {
            return Err(GameError::InvalidSize);
        }
        proof {
            assert((size as int) * (size as int) <= 255 * 255) by (nonlinear_arith)
                requires
                    size <= 255,
            ;
        }
        let n: usize = (size as usize) * (size as usize);
        let mut data: Vec<Option<Tile>> = Vec::new();
        while data.len() < n
            invariant
                n == (size as int) * (size as int),
                data@.len() <= n,
                forall|i: int| 0 <= i < data@.len() ==> data@[i] is None,
            decreases n - data.len(),
        {
            data.push(None);
        }
        Ok(Grid { data, size })
    }

    /// The fixed board dimension.
    pub fn get_size(&self) -> (r: u8)
        ensures
            r as int == self.spec_size(),
    {
        self.size
    }

    /// Direct read of an in-bounds cell.
    pub(crate) fn cell_at(&self, x: u8, y: u8) -> (r: Option<Tile>)
        requires
            self.wf(),
            (x as int) < self.spec_size(),
            (y as int) < self.spec_size(),
        ensures
            r == self.spec_cell(x as int, y as int),
    {
        proof {
            lemma_flat_bounds(self.spec_size(), x as int, y as int);
            assert((x as int) * (self.size as int) + (y as int) < 65536) by (nonlinear_arith)
                requires
                    (x as int) < (self.size as int),
                    (y as int) < (self.size as int),
                    self.size <= 255,
            ;
            assert((x as int) * (self.size as int) + (y as int) == flat(
                self.spec_size(),
                x as int,
                y as int,
            ));
        }
        let i: usize = (x as usize) * (self.size as usize) + (y as usize);
        self.data[i]
    }

    /// Direct read of a cell by flat index.
    pub(crate) fn cell_flat(&self, i: usize) -> (r: Option<Tile>)
        requires
            self.wf(),
            (i as int) < self.cells().len(),
        ensures
            r == self.cells()[i as int],
    {
        self.data[i]
    }

    /// Direct overwrite of an in-bounds cell.
    pub(crate) fn set_cell(&mut self, x: u8, y: u8, c: Option<Tile>)
        requires
            old(self).wf(),
            (x as int) < old(self).spec_size(),
            (y as int) < old(self).spec_size(),
        ensures
            final(self).wf(),
            final(self).spec_size() == old(self).spec_size(),
            final(self).cells() == old(self).cells().update(
                flat(old(self).spec_size(), x as int, y as int),
                c,
            ),
    {
        proof {
            lemma_flat_bounds(self.spec_size(), x as int, y as int);
            assert((x as int) * (self.size as int) + (y as int) < 65536) by (nonlinear_arith)
                requires
                    (x as int) < (self.size as int),
                    (y as int) < (self.size as int),
                    self.size <= 255,
            ;
            assert((x as int) * (self.size as int) + (y as int) == flat(
                self.spec_size(),
                x as int,
                y as int,
            ));
        }
        let i: usize = (x as usize) * (self.size as usize) + (y as usize);
        self.data[i] = c;
    }

    /// Bounds-checked read. Returns a copy of the cell's content; a
    /// coordinate outside the board is refused rather than clamped.
    pub fn get_tile(&self, position: GridCoord) -> (r: Result<Option<Tile>, GameError>)
        requires
            self.wf(),
        ensures
            self.in_bounds(position) ==> r == Ok::<Option<Tile>, GameError>(
                self.spec_cell(position.x as int, position.y as int),
            ),
            !self.in_bounds(position) ==> r == Err::<Option<Tile>, GameError>(
                GameError::OutOfBounds,
            ),
    {
        if position.x >= self.size || position.y >= self.size {
            return Err(GameError::OutOfBounds);
        }
        Ok(self.cell_at(position.x, position.y))
    }

    /// Places a tile of `value` on an empty in-bounds cell; never
    /// overwrites an occupied cell.
    pub fn add_new_tile(&mut self, value: u16, position: GridCoord) -> (r: Result<(), GameError>)
        requires
            old(self).wf(),
        ensures
            final(self).wf(),
            final(self).spec_size() == old(self).spec_size(),
            !old(self).in_bounds(position) ==> r == Err::<(), GameError>(GameError::OutOfBounds)
                && final(self).cells() == old(self).cells(),
            old(self).in_bounds(position) && old(self).spec_cell(
                position.x as int,
                position.y as int,
            ) is Some ==> r == Err::<(), GameError>(GameError::CellOccupied) && final(self).cells()
                == old(self).cells(),
            old(self).in_bounds(position) && old(self).spec_cell(
                position.x as int,
                position.y as int,
            ) is None ==> r == Ok::<(), GameError>(()) && final(self).cells() == old(
                self,
            ).cells().update(
                flat(old(self).spec_size(), position.x as int, position.y as int),
                Some(Tile { value }),
            ),
    {
        if position.x >= self.size || position.y >= self.size {
            return Err(GameError::OutOfBounds);
        }
        if self.cell_at(position.x, position.y).is_some() {
            return Err(GameError::CellOccupied);
        }
        self.set_cell(position.x, position.y, Some(Tile { value }));
        Ok(())
    }

    /// Relocates the tile at `from` into the empty cell `to`; the source
    /// becomes empty. The multiset of tile values on the board — and hence
    /// their sum — is exactly preserved.
    pub fn move_tile(&mut self, from: GridCoord, to: GridCoord) -> (r: Result<(), GameError>)
        requires
            old(self).wf(),
        ensures
            final(self).wf(),
            final(self).spec_size() == old(self).spec_size(),
            !(old(self).in_bounds(from) && old(self).in_bounds(to)) ==> r == Err::<(), GameError>(
                GameError::OutOfBounds,
            ) && final(self).cells() == old(self).cells(),
            old(self).in_bounds(from) && old(self).in_bounds(to) && old(self).spec_cell(
                from.x as int,
                from.y as int,
            ) is None ==> r == Err::<(), GameError>(GameError::SourceEmpty) && final(self).cells()
                == old(self).cells(),
            old(self).in_bounds(from) && old(self).in_bounds(to) && old(self).spec_cell(
                from.x as int,
                from.y as int,
            ) is Some && old(self).spec_cell(to.x as int, to.y as int) is Some ==> r == Err::<
                (),
                GameError,
            >(GameError::DestinationOccupied) && final(self).cells() == old(self).cells(),
            old(self).in_bounds(from) && old(self).in_bounds(to) && old(self).spec_cell(
                from.x as int,
                from.y as int,
            ) is Some && old(self).spec_cell(to.x as int, to.y as int) is None ==> {
                &&& r == Ok::<(), GameError>(())
                &&& final(self).cells() == old(self).cells().update(
                    flat(old(self).spec_size(), to.x as int, to.y as int),
                    old(self).spec_cell(from.x as int, from.y as int),
                ).update(flat(old(self).spec_size(), from.x as int, from.y as int), None)
                &&& tile_values(final(self).cells()) == tile_values(old(self).cells())
                &&& value_sum(final(self).cells()) == value_sum(old(self).cells())
                &&& count_empty(final(self).cells()) == count_empty(old(self).cells())
                &&& count_occupied(final(self).cells()) == count_occupied(old(self).cells())
            },
    {
        if from.x >= self.size || from.y >= self.size || to.x >= self.size || to.y >= self.size {
            return Err(GameError::OutOfBounds);
        }
        let source = self.cell_at(from.x, from.y);
        if source.is_none() {
            return Err(GameError::SourceEmpty);
        }
        if self.cell_at(to.x, to.y).is_some() {
            return Err(GameError::DestinationOccupied);
        }
        let ghost size = self.spec_size();
        let ghost s0 = self.cells();
        let ghost fi = flat(size, from.x as int, from.y as int);
        let ghost ti = flat(size, to.x as int, to.y as int);
        self.set_cell(to.x, to.y, source);
        self.set_cell(from.x, from.y, None);
        proof {
            lemma_flat_bounds(size, from.x as int, from.y as int);
            lemma_flat_bounds(size, to.x as int, to.y as int);
            lemma_flat_injective_distinct(size, from, to);
            let s1 = s0.update(ti, source);
            let s2 = s1.update(fi, None);
            lemma_cells_update(s0, ti, source);
            lemma_cells_update(s1, fi, None);
            assert(s1[fi] == s0[fi]);
            broadcast use vstd::multiset::group_multiset_axioms;

            assert forall|v: u16| tile_values(s2).count(v) == tile_values(s0).count(v) by {
                assert(cell_values(s0[ti]) == Multiset::<u16>::empty());
            }
            assert(tile_values(s2) =~= tile_values(s0));
        }
        Ok(())
    }

    /// Merges the tile at `from` into the equal-valued tile at `to`: the
    /// destination's value doubles, the source becomes empty, and the new
    /// value is returned. On the value multiset this removes two copies of
    /// the merged value and introduces its double, which leaves the value
    /// sum unchanged while the tile count drops by one.
    ///
    /// Merging a cell into itself is a caller bug and is refused as
    /// `InvalidArgument`; a destination that is empty or holds a different
    /// value is refused as `ValueMismatch`.
    pub fn merge_into(&mut self, from: GridCoord, to: GridCoord) -> (r: Result<u16, GameError>)
        requires
            old(self).wf(),
            // machine limit: the doubled value must still fit in a tile
            old(self).merge_applies(from, to) ==> 2 * cell_value(
                old(self).spec_cell(from.x as int, from.y as int),
            ) <= u16::MAX,
        ensures
            final(self).wf(),
            final(self).spec_size() == old(self).spec_size(),
            !(old(self).in_bounds(from) && old(self).in_bounds(to)) ==> r == Err::<u16, GameError>(
                GameError::OutOfBounds,
            ) && final(self).cells() == old(self).cells(),
            old(self).in_bounds(from) && old(self).in_bounds(to) && from == to ==> r == Err::<
                u16,
                GameError,
            >(GameError::InvalidArgument) && final(self).cells() == old(self).cells(),
            old(self).in_bounds(from) && old(self).in_bounds(to) && from != to && old(
                self,
            ).spec_cell(from.x as int, from.y as int) is None ==> r == Err::<u16, GameError>(
                GameError::SourceEmpty,
            ) && final(self).cells() == old(self).cells(),
            old(self).in_bounds(from) && old(self).in_bounds(to) && from != to && old(
                self,
            ).spec_cell(from.x as int, from.y as int) is Some && !old(self).merge_applies(from, to)
                ==> r == Err::<u16, GameError>(GameError::ValueMismatch) && final(self).cells()
                == old(self).cells(),
            old(self).merge_applies(from, to) ==> {
                let v = cell_value(old(self).spec_cell(from.x as int, from.y as int));
                &&& r == Ok::<u16, GameError>((2 * v) as u16)
                &&& final(self).cells() == old(self).cells().update(
                    flat(old(self).spec_size(), to.x as int, to.y as int),
                    Some(Tile { value: (2 * v) as u16 }),
                ).update(flat(old(self).spec_size(), from.x as int, from.y as int), None)
                &&& tile_values(final(self).cells()).insert(v as u16).insert(v as u16)
                    == tile_values(old(self).cells()).insert((2 * v) as u16)
                &&& value_sum(final(self).cells()) == value_sum(old(self).cells())
                &&& count_empty(final(self).cells()) == count_empty(old(self).cells()) + 1
                &&& count_occupied(final(self).cells()) == count_occupied(old(self).cells()) - 1
            },
    {
        if from.x >= self.size || from.y >= self.size || to.x >= self.size || to.y >= self.size {
            return Err(GameError::OutOfBounds);
        }
        if from.x == to.x && from.y == to.y {
            return Err(GameError::InvalidArgument);
        }
        let source = self.cell_at(from.x, from.y);
        let dest = self.cell_at(to.x, to.y);
        match (source, dest) {
            (None, _) => Err(GameError::SourceEmpty),
            (Some(t), dest) => {
                let matched = match dest {
                    Some(u) => u.value == t.value,
                    None => false,
                };
                if !matched {
                    return Err(GameError::ValueMismatch);
                }
                let doubled: u16 = 2 * t.value;
                let ghost size = self.spec_size();
                let ghost s0 = self.cells();
                let ghost fi = flat(size, from.x as int, from.y as int);
                let ghost ti = flat(size, to.x as int, to.y as int);
                self.set_cell(to.x, to.y, Some(Tile { value: doubled }));
                self.set_cell(from.x, from.y, None);
                proof {
                    lemma_flat_bounds(size, from.x as int, from.y as int);
                    lemma_flat_bounds(size, to.x as int, to.y as int);
                    lemma_flat_injective_distinct(size, from, to);
                    let s1 = s0.update(ti, Some(Tile { value: doubled }));
                    let s2 = s1.update(fi, None);
                    lemma_cells_update(s0, ti, Some(Tile { value: doubled }));
                    lemma_cells_update(s1, fi, None);
                    assert(s1[fi] == s0[fi]);
                    broadcast use vstd::multiset::group_multiset_axioms;

                    assert forall|v: u16|
                        tile_values(s2).insert(t.value).insert(t.value).count(v) == tile_values(
                            s0,
                        ).insert(doubled).count(v) by {}
                    assert(tile_values(s2).insert(t.value).insert(t.value) =~= tile_values(
                        s0,
                    ).insert(doubled));
                }
                Ok(doubled)
            },
        }
    }

    /// Enumerates the coordinates of all empty cells in row-major order
    /// (`x` outer, `y` inner), newly materialised per call. Their number
    /// is exactly the board's empty-cell count.
    pub fn get_empty_positions(&self) -> (r: Vec<GridCoord>)
        requires
            self.wf(),
        ensures
            r@ == spec_empty_positions(self.cells(), self.spec_size()),
            r@.len() == count_empty(self.cells()),
            forall|m: int|
                0 <= m < r@.len() ==> self.in_bounds(#[trigger] r@[m]) && self.spec_cell(
                    r@[m].x as int,
                    r@[m].y as int,
                ) is None,
    {
        let s: usize = self.size as usize;
        let n: usize = self.data.len();
        let mut out: Vec<GridCoord> = Vec::new();
        let mut i: usize = 0;
        while i < n
            invariant
                self.wf(),
                s == self.spec_size(),
                n == self.cells().len(),
                0 <= i <= n,
                out@ == empty_positions_upto(self.cells(), self.spec_size(), i as int),
                out@.len() == count_empty(self.cells().take(i as int)),
                forall|m: int|
                    0 <= m < out@.len() ==> self.in_bounds(#[trigger] out@[m]) && self.spec_cell(
                        out@[m].x as int,
                        out@[m].y as int,
                    ) is None,
            decreases n - i,
        {
            proof {
                assert(self.cells().take(i as int + 1).drop_last() =~= self.cells().take(i as int));
                assert(self.cells().take(i as int + 1).last() == self.cells()[i as int]);
            }
            if self.data[i].is_none() {
                let x: u8 = (i / s) as u8;
                let y: u8 = (i % s) as u8;
                proof {
                    lemma_flat_unflat(self.spec_size(), i as int);
                }
                out.push(GridCoord { x, y });
            }
            i += 1;
        }
        proof {
            assert(self.cells().take(n as int) =~= self.cells());
        }
        out
    }
}

/// Two distinct in-bounds coordinates index distinct cells.
proof fn lemma_flat_injective_distinct(size: int, a: GridCoord, b: GridCoord)
    requires
        0 <= (a.x as int) < size,
        0 <= (a.y as int) < size,
        0 <= (b.x as int) < size,
        0 <= (b.y as int) < size,
        a != b,
    ensures
        flat(size, a.x as int, a.y as int) != flat(size, b.x as int, b.y as int),
{
    if flat(size, a.x as int, a.y as int) == flat(size, b.x as int, b.y as int) {
        lemma_flat_injective(size, a.x as int, a.y as int, b.x as int, b.y as int);
    }
}

/// Census law for a well-formed board: empty cells plus occupied cells
/// account for every one of the `size * size` cells.
pub proof fn lemma_empty_plus_occupied(g: Grid)
    requires
        g.wf(),
    ensures
        count_empty(g.cells()) + count_occupied(g.cells()) == g.spec_size() * g.spec_size(),
{
    lemma_cell_census(g.cells());
}

/// Placing a tile and reading the same coordinate returns the placed tile;
/// and since the cell is now occupied, a second placement there is refused
/// as `CellOccupied`. Stated over the cell model that `add_new_tile`
/// ensures and `get_tile` reads.
pub proof fn lemma_place_then_get(g0: Grid, g1: Grid, value: u16, position: GridCoord)
    requires
        g0.wf(),
        g0.in_bounds(position),
        g0.spec_cell(position.x as int, position.y as int) is None,
        g1.spec_size() == g0.spec_size(),
        g1.cells() == g0.cells().update(
            flat(g0.spec_size(), position.x as int, position.y as int),
            Some(Tile { value }),
        ),
    ensures
        g1.spec_cell(position.x as int, position.y as int) == Some(Tile { value }),
        g1.spec_cell(position.x as int, position.y as int) is Some,
{
    lemma_flat_bounds(g0.spec_size(), position.x as int, position.y as int);
}

} // verus!
