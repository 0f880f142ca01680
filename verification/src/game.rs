use vstd::prelude::*;
use crate::errors::GameError;
use crate::grid::{cell_value, count_empty, count_occupied, flat, Grid, Tile};
use crate::grid::{lemma_all_cells_empty, lemma_cells_update, lemma_empty_plus_occupied,
    lemma_flat_bounds};
use crate::grid_coord::GridCoord;
use crate::moves::{move_changes, move_delta, moved_cells, MoveDirection, MoveEngine, MoveResult};
use crate::moves::{lemma_move_leaves_empty, lemma_unmoved_delta_zero};

verus! {

/// The tile value at which a session is won.
pub const TARGET_VALUE: u16 = 2048;

/// Lifecycle of one session. Once it leaves `InProgress` no further move
/// is accepted.
#[derive(Clone, Copy, Debug, PartialEq, Eq, Structural)]
pub enum GameState {
    InProgress,
    Won,
    Lost,
}

/// Whether some cell holds a tile that reached the target value.
pub open spec fn has_winning_tile(cells: Seq<Option<Tile>>) -> bool {
    exists|i: int| 0 <= i < cells.len() && cell_value(cells[i]) >= TARGET_VALUE
}

/// Whether no direction can change the board.
pub open spec fn all_moves_blocked(cells: Seq<Option<Tile>>, size: int) -> bool {
    &&& !move_changes(cells, size, MoveDirection::Up)
    &&& !move_changes(cells, size, MoveDirection::Down)
    &&& !move_changes(cells, size, MoveDirection::Left)
    &&& !move_changes(cells, size, MoveDirection::Right)
}

/// Terminal evaluation of a board: `Won` as soon as any tile reaches the
/// target; otherwise `Lost` when no cell is empty and every direction is
/// blocked; otherwise play goes on.
pub open spec fn spec_state_of(cells: Seq<Option<Tile>>, size: int) -> GameState {
    if has_winning_tile(cells) {
        GameState::Won
    } else if count_empty(cells) == 0 && all_moves_blocked(cells, size) {
        GameState::Lost
    } else {
        GameState::InProgress
    }
}

/// A cell as construction leaves it: empty, or holding one of the two
/// starting values.
pub open spec fn starting_cell(c: Option<Tile>) -> bool {
    c is None || cell_value(c) == 2 || cell_value(c) == 4
}

/// Addition on the `u32` range that stops at the ceiling instead of
/// wrapping.
pub open spec fn sat_add_u32(a: int, b: int) -> int {
    if a + b <= u32::MAX {
        a + b
    } else {
        u32::MAX as int
    }
}

/// One play session: a board, a cumulative score, a count of the moves
/// that changed the board, and the lifecycle state.
#[derive(Debug)]
pub struct Game {
    pub score: u32,
    pub grid: Grid,
    pub state: GameState,
    pub turns: u32,
}

/// Relies on rand::thread_rng and rand::Rng::gen_range: a uniform draw
/// from `0..n`. The call panics only on an empty range, which the
/// precondition rules out; whatever the generator yields lies below `n`,
/// and nothing more can be promised of a random value.
#[verifier::external_body]
fn random_below(n: usize) -> (r: usize)
    requires
        n > 0,
    ensures
        r < n,
{
    rand::Rng::gen_range(&mut rand::thread_rng(), 0..n)
}

fn saturating_add_u32(a: u32, b: u32) -> (r: u32)
    ensures
        r as int == sat_add_u32(a as int, b as int),
{
    if a <= u32::MAX - b {
        a + b
    } else {
        u32::MAX
    }
}

impl Game {
    /// Structural soundness of the session: its board is well-formed.
    pub open spec fn wf(&self) -> bool {
        self.grid.wf()
    }

    /// Creates a session on a fresh board of the given size with score
    /// zero and two starting tiles (each of value 2 or 4) at distinct,
    /// randomly chosen positions. A size below 2 is refused.
    pub fn new(size: u8) -> (r: Result<Game, GameError>)
        ensures
            size < 2 ==> r == Err::<Game, GameError>(GameError::InvalidSize),
            size >= 2 ==> (r matches Ok(g) && g.wf() && g.score == 0 && g.turns == 0 && g.state
                == GameState::InProgress && g.grid.spec_size() == size as int && count_occupied(
                g.grid.cells(),
            ) == 2 && forall|i: int|
                0 <= i < g.grid.cells().len() ==> starting_cell(#[trigger] g.grid.cells()[i])),
    {
        let grid = match Grid::new(size) {
            Ok(g) => g,
            Err(e) => {
                return Err(e);
            },
        };
        let mut game = Game { score: 0, grid, state: GameState::InProgress, turns: 0 };
        proof {
            lemma_all_cells_empty(game.grid.cells());
            assert(game.grid.spec_size() * game.grid.spec_size() >= 4) by (nonlinear_arith)
                requires
                    game.grid.spec_size() >= 2,
            ;
        }
        match game.add_random_tile() {
            Ok(()) => {},
            Err(e) => {
                return Err(e);
            },
        }
        match game.add_random_tile() {
            Ok(()) => {},
            Err(e) => {
                return Err(e);
            },
        }
        Ok(game)
    }

    /// The cumulative score: the sum of the values of all tiles merges
    /// have created, over every effective move so far.
    pub fn get_score(&self) -> (r: u32)
        ensures
            r == self.score,
    {
        self.score
    }

    /// Read-only view of the board.
    pub fn get_grid(&self) -> (r: &Grid)
        ensures
            r.cells() == self.grid.cells(),
            r.spec_size() == self.grid.spec_size(),
    {
        &self.grid
    }

    /// The lifecycle state the session is in.
    pub fn get_state(&self) -> (r: GameState)
        ensures
            r == self.state,
    {
        self.state
    }

    /// How many moves have changed the board so far.
    pub fn get_turns(&self) -> (r: u32)
        ensures
            r == self.turns,
    {
        self.turns
    }

    /// Places one tile of value 2 or 4 — an even coin flip, the spawn
    /// distribution this engine commits to — at an empty position chosen
    /// uniformly at random. On a full board nothing changes and
    /// `NoEmptyPosition` is reported.
    pub fn add_random_tile(&mut self) -> (r: Result<(), GameError>)
        requires
            old(self).wf(),
        ensures
            final(self).wf(),
            final(self).grid.spec_size() == old(self).grid.spec_size(),
            final(self).score == old(self).score,
            final(self).state == old(self).state,
            final(self).turns == old(self).turns,
            count_empty(old(self).grid.cells()) == 0 ==> r == Err::<(), GameError>(
                GameError::NoEmptyPosition,
            ) && final(self).grid.cells() == old(self).grid.cells(),
            count_empty(old(self).grid.cells()) > 0 ==> r == Ok::<(), GameError>(()) && count_empty(
                final(self).grid.cells(),
            ) == count_empty(old(self).grid.cells()) - 1 && count_occupied(final(self).grid.cells())
                == count_occupied(old(self).grid.cells()) + 1 && exists|i: int|
                0 <= i < old(self).grid.cells().len() && old(self).grid.cells()[i] is None && (
                final(self).grid.cells() == old(self).grid.cells().update(
                    i,
                    Some(Tile { value: 2 }),
                ) || final(self).grid.cells() == old(self).grid.cells().update(
                    i,
                    Some(Tile { value: 4 }),
                )),
    {
        proof {
            crate::grid::lemma_counts_nonneg(self.grid.cells());
        }
        let value = Game::generate_tile_value();
        let position = match self.generate_random_empty_position() {
            Ok(p) => p,
            Err(e) => {
                return Err(e);
            },
        };
        let ghost cells0 = self.grid.cells();
        let ghost n = self.grid.spec_size();
        let ghost target = flat(n, position.x as int, position.y as int);
        proof {
            lemma_flat_bounds(n, position.x as int, position.y as int);
        }
        let result = self.grid.add_new_tile(value, position);
        proof {
            lemma_cells_update(cells0, target, Some(Tile { value }));
            assert(0 <= target < cells0.len() && cells0[target] is None && (self.grid.cells()
                == cells0.update(target, Some(Tile { value: 2 })) || self.grid.cells()
                == cells0.update(target, Some(Tile { value: 4 }))));
        }
        result
    }

    /// Picks an empty position uniformly at random; on a full board
    /// reports `NoEmptyPosition`.
    fn generate_random_empty_position(&self) -> (r: Result<GridCoord, GameError>)
        requires
            self.wf(),
        ensures
            count_empty(self.grid.cells()) == 0 ==> r == Err::<GridCoord, GameError>(
                GameError::NoEmptyPosition,
            ),
            count_empty(self.grid.cells()) > 0 ==> (r matches Ok(p) && self.grid.in_bounds(p)
                && self.grid.spec_cell(p.x as int, p.y as int) is None),
    {
        let empties = self.grid.get_empty_positions();
        if empties.len() == 0 {
            return Err(GameError::NoEmptyPosition);
        }
        let idx = random_below(empties.len());
        Ok(empties[idx])
    }

    /// Flips an even coin between the two spawn values, 2 and 4.
    fn generate_tile_value() -> (r: u16)
        ensures
            r == 2 || r == 4,
    {
        let coin = random_below(2);
        if coin == 0 {
            2
        } else {
            4
        }
    }

    /// Re-evaluates the terminal condition of the current board.
    pub fn evaluate_state(&self) -> (r: GameState)
        requires
            self.wf(),
        ensures
            r == spec_state_of(self.grid.cells(), self.grid.spec_size()),
    {
        if has_reached_target(&self.grid) {
            return GameState::Won;
        }
        let empties = self.grid.get_empty_positions();
        if empties.len() > 0 {
            return GameState::InProgress;
        }
        if MoveEngine::would_change(&self.grid, MoveDirection::Up) {
            return GameState::InProgress;
        }
        if MoveEngine::would_change(&self.grid, MoveDirection::Down) {
            return GameState::InProgress;
        }
        if MoveEngine::would_change(&self.grid, MoveDirection::Left) {
            return GameState::InProgress;
        }
        if MoveEngine::would_change(&self.grid, MoveDirection::Right) {
            return GameState::InProgress;
        }
        GameState::Lost
    }

    /// Applies one directional move while the session is in progress.
    ///
    /// A blocked move leaves the session exactly as it was and reports
    /// `moved == false`. An effective move adds the merge total to the
    /// score (saturating at the `u32` ceiling), advances the turn
    /// counter, spawns one tile of value 2 or 4 (even odds) at a
    /// uniformly chosen empty cell — a changed board always has one —
    /// and re-evaluates the terminal state. After `Won` or `Lost` every
    /// call fails with `GameAlreadyOver` and changes nothing.
    pub fn perform_move(&mut self, direction: MoveDirection) -> (r: Result<MoveResult, GameError>)
        requires
            old(self).wf(),
        ensures
            final(self).wf(),
            final(self).grid.spec_size() == old(self).grid.spec_size(),
            old(self).state != GameState::InProgress ==> r == Err::<MoveResult, GameError>(
                GameError::GameAlreadyOver,
            ) && final(self).grid.cells() == old(self).grid.cells() && final(self).score == old(
                self,
            ).score && final(self).state == old(self).state && final(self).turns == old(
                self,
            ).turns,
            old(self).state == GameState::InProgress && !move_changes(
                old(self).grid.cells(),
                old(self).grid.spec_size(),
                direction,
            ) ==> r == Ok::<MoveResult, GameError>(MoveResult { moved: false, score_delta: 0 })
                && final(self).grid.cells() == old(self).grid.cells() && final(self).score == old(
                self,
            ).score && final(self).state == old(self).state && final(self).turns == old(
                self,
            ).turns,
            old(self).state == GameState::InProgress && move_changes(
                old(self).grid.cells(),
                old(self).grid.spec_size(),
                direction,
            ) ==> {
                let delta = move_delta(
                    old(self).grid.cells(),
                    old(self).grid.spec_size(),
                    direction,
                );
                let shifted = moved_cells(
                    old(self).grid.cells(),
                    old(self).grid.spec_size(),
                    direction,
                );
                &&& r matches Ok(m) && m.moved && m.score_delta as int == delta
                &&& final(self).score as int == sat_add_u32(old(self).score as int, delta)
                &&& final(self).turns as int == sat_add_u32(old(self).turns as int, 1)
                &&& count_occupied(final(self).grid.cells()) == count_occupied(shifted) + 1
                &&& exists|i: int|
                    0 <= i < shifted.len() && shifted[i] is None && (final(self).grid.cells()
                        == shifted.update(i, Some(Tile { value: 2 })) || final(self).grid.cells()
                        == shifted.update(i, Some(Tile { value: 4 })))
                &&& final(self).state == spec_state_of(
                    final(self).grid.cells(),
                    old(self).grid.spec_size(),
                )
            },
    {
        match self.state {
            GameState::InProgress => {},
            _ => {
                return Err(GameError::GameAlreadyOver);
            },
        }
        let ghost cells0 = self.grid.cells();
        let ghost n = self.grid.spec_size();
        let result = MoveEngine::apply(&mut self.grid, direction);
        if !result.moved {
            proof {
                lemma_unmoved_delta_zero(cells0, n, direction);
            }
            return Ok(result);
        }
        self.score = saturating_add_u32(self.score, result.score_delta);
        self.turns = saturating_add_u32(self.turns, 1);
        proof {
            lemma_move_leaves_empty(cells0, n, direction);
        }
        match self.add_random_tile() {
            Ok(()) => {},
            Err(e) => {
                return Err(e);
            },
        }
        let next_state = self.evaluate_state();
        self.state = next_state;
        Ok(result)
    }
}

/// Searches the board for a tile that reached the target value.
fn has_reached_target(grid: &Grid) -> (r: bool)
    requires
        grid.wf(),
    ensures
        r == has_winning_tile(grid.cells()),
{
    let size = grid.get_size();
    proof {
        assert((size as int) * (size as int) <= 255 * 255) by (nonlinear_arith)
            requires
                size <= 255,
        ;
    }
    let total: usize = (size as usize) * (size as usize);
    let mut i: usize = 0;
    let mut found = false;
    while i < total
        invariant
            grid.wf(),
            total == grid.cells().len(),
            0 <= i <= total,
            !found ==> forall|m: int|
                0 <= m < i as int ==> cell_value(#[trigger] grid.cells()[m]) < TARGET_VALUE,
            found ==> has_winning_tile(grid.cells()),
        decreases total - i,
    {
        match grid.cell_flat(i) {
            Some(t) => {
                if t.value >= TARGET_VALUE {
                    found = true;
                }
            },
            None => {},
        }
        i += 1;
    }
    found
}

/// A blocked move is idempotent: `perform_move` leaves the session
/// untouched when the direction changes nothing, so issuing the same
/// direction again is still blocked, still scores nothing, and the score
/// is still what it was.
pub proof fn lemma_blocked_move_idempotent(before: Game, after: Game, direction: MoveDirection)
    requires
        before.wf(),
        before.state == GameState::InProgress,
        !move_changes(before.grid.cells(), before.grid.spec_size(), direction),
        // what perform_move guarantees for the blocked call:
        after.grid.cells() == before.grid.cells(),
        after.grid.spec_size() == before.grid.spec_size(),
        after.score == before.score,
        after.state == before.state,
    ensures
        !move_changes(after.grid.cells(), after.grid.spec_size(), direction),
        move_delta(after.grid.cells(), after.grid.spec_size(), direction) == 0,
        after.score == before.score,
        after.state == GameState::InProgress,
{
    lemma_unmoved_delta_zero(
        after.grid.cells(),
        after.grid.spec_size(),
        direction,
    );
}

/// Reaching the target wins: a board holding a tile of at least the
/// target value always evaluates to `Won`.
pub proof fn lemma_reaching_target_wins(cells: Seq<Option<Tile>>, size: int, i: int)
    requires
        0 <= i < cells.len(),
        cell_value(cells[i]) >= TARGET_VALUE,
    ensures
        spec_state_of(cells, size) == GameState::Won,
{
}

/// A full board on which no direction changes anything — and no tile has
/// reached the target — evaluates to `Lost`.
pub proof fn lemma_no_moves_is_lost(cells: Seq<Option<Tile>>, size: int)
    requires
        count_empty(cells) == 0,
        all_moves_blocked(cells, size),
        !has_winning_tile(cells),
    ensures
        spec_state_of(cells, size) == GameState::Lost,
{
}

/// The census law carried to a session: the empty positions and the
/// occupied cells together account for the whole `size * size` board.
pub proof fn lemma_session_census(g: Game)
    requires
        g.wf(),
    ensures
        count_empty(g.grid.cells()) + count_occupied(g.grid.cells()) == g.grid.spec_size()
            * g.grid.spec_size(),
{
    lemma_empty_plus_occupied(g.grid);
}

} // verus!
