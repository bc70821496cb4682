//! What it means to solve a position: a sequence of legal moves that
//! empties the board.

use vstd::prelude::*;
use crate::board::all_empty;
use crate::element::{Cell, Element};
use crate::rules::{
    canonical_count, count_below, count_of, lemma_valid_move_occupied, valid_composition,
    valid_moves,
};

verus! {

/// The position after the cells of `m` were cleared.
pub open spec fn clear(cells: Seq<Cell>, m: (int, int)) -> Seq<Cell> {
    cells.update(m.0, None).update(m.1, None)
}

/// The position after the cells of each of `moves` were cleared, in order.
pub open spec fn replay(cells: Seq<Cell>, moves: Seq<(int, int)>) -> Seq<Cell>
    decreases moves.len(),
{
    if moves.len() == 0 {
        cells
    } else {
        replay(clear(cells, moves[0]), moves.skip(1))
    }
}

/// Whether `moves` solves the position: each move is legal in the position
/// that the moves before it leave, and the last one leaves the board empty.
pub open spec fn solves(cells: Seq<Cell>, moves: Seq<(int, int)>) -> bool
    decreases moves.len(),
{
    if moves.len() == 0 {
        all_empty(cells)
    } else {
        valid_moves(cells).contains(moves[0]) && solves(clear(cells, moves[0]), moves.skip(1))
    }
}

/// Whether some sequence of legal moves empties the board.
pub open spec fn solvable(cells: Seq<Cell>) -> bool {
    exists|moves: Seq<(int, int)>| solves(cells, moves)
}

/// The number of occupied cells below `n`.
pub open spec fn occupied_below(cells: Seq<Cell>, n: int) -> nat
    decreases n,
{
    if n <= 0 {
        0
    } else if cells[n - 1] is Some {
        occupied_below(cells, n - 1) + 1
    } else {
        occupied_below(cells, n - 1)
    }
}

/// The number of tiles on the board.
pub open spec fn tile_count(cells: Seq<Cell>) -> nat {
    occupied_below(cells, 91)
}

/// The number of cells that a move names: one where it names a cell twice.
pub open spec fn cells_of(m: (int, int)) -> nat {
    if m.0 == m.1 {
        1
    } else {
        2
    }
}

/// The number of cells that `moves` name in all.
pub open spec fn cleared_cells(moves: Seq<(int, int)>) -> nat
    decreases moves.len(),
{
    if moves.len() == 0 {
        0
    } else {
        cells_of(moves[0]) + cleared_cells(moves.skip(1))
    }
}

/// Replaying one more move clears its cells in the position that the moves
/// before it leave.
pub proof fn lemma_replay_push(cells: Seq<Cell>, moves: Seq<(int, int)>, m: (int, int))
    ensures
        replay(cells, moves.push(m)) == clear(replay(cells, moves), m),
    decreases moves.len(),
{
    let longer = moves.push(m);
    if moves.len() == 0 {
        assert(longer.skip(1) =~= Seq::<(int, int)>::empty());
        assert(replay(clear(cells, m), longer.skip(1)) == clear(cells, m));
    } else {
        assert(longer[0] == moves[0]);
        assert(longer.skip(1) =~= moves.skip(1).push(m));
        lemma_replay_push(clear(cells, moves[0]), moves.skip(1), m);
    }
}

/// Clearing a cell takes one tile off the count where the cell held one.
pub proof fn lemma_occupied_update(cells: Seq<Cell>, i: int, n: int)
    requires
        0 <= i < cells.len(),
        0 <= n <= cells.len(),
    ensures
        occupied_below(cells.update(i, None), n) == occupied_below(cells, n) - (if i < n
            && cells[i] is Some {
            1int
        } else {
            0int
        }),
    decreases n,
{
    if n > 0 {
        lemma_occupied_update(cells, i, n - 1);
    }
}

/// An empty board holds no tile, and a board without tiles is empty.
pub proof fn lemma_empty_tile_count(cells: Seq<Cell>)
    requires
        cells.len() == 91,
    ensures
        all_empty(cells) <==> tile_count(cells) == 0,
{
    lemma_occupied_zero(cells, 91);
}

proof fn lemma_occupied_zero(cells: Seq<Cell>, n: int)
    requires
        0 <= n <= cells.len(),
    ensures
        occupied_below(cells, n) == 0 <==> forall|i: int| 0 <= i < n ==> cells[i] is None,
    decreases n,
{
    if n > 0 {
        lemma_occupied_zero(cells, n - 1);
        if occupied_below(cells, n) == 0 {
            assert forall|i: int| 0 <= i < n implies cells[i] is None by {
                if i < n - 1 {
                }
            }
        }
    }
}

/// A legal move takes as many tiles off the board as it names cells.
pub proof fn lemma_move_tile_count(cells: Seq<Cell>, m: (int, int))
    requires
        cells.len() == 91,
        valid_moves(cells).contains(m),
    ensures
        tile_count(clear(cells, m)) + cells_of(m) == tile_count(cells),
        clear(cells, m).len() == 91,
{
    lemma_valid_move_occupied(cells, m.0, m.1);
    lemma_occupied_update(cells, m.0, 91);
    lemma_occupied_update(cells.update(m.0, None), m.1, 91);
}

/// A solution replays to the empty board and clears every tile once: the
/// cells that its moves name are as many as the tiles of the position.
pub proof fn lemma_solution_clears_all(cells: Seq<Cell>, moves: Seq<(int, int)>)
    requires
        cells.len() == 91,
        solves(cells, moves),
    ensures
        all_empty(replay(cells, moves)),
        cleared_cells(moves) == tile_count(cells),
    decreases moves.len(),
{
    if moves.len() == 0 {
        lemma_empty_tile_count(cells);
    } else {
        lemma_move_tile_count(cells, moves[0]);
        lemma_solution_clears_all(clear(cells, moves[0]), moves.skip(1));
    }
}

/// A position is not solvable where it holds a tile and every legal move
/// leads to a position that is not solvable.
pub proof fn lemma_dead_end(cells: Seq<Cell>)
    requires
        !all_empty(cells),
        forall|j: int|
            0 <= j < valid_moves(cells).len() ==> !solvable(
                clear(cells, #[trigger] valid_moves(cells)[j]),
            ),
    ensures
        !solvable(cells),
{
    if solvable(cells) {
        let moves = choose|moves: Seq<(int, int)>| solves(cells, moves);
        assert(moves.len() > 0);
        let j = choose|j: int| 0 <= j < valid_moves(cells).len() && valid_moves(cells)[j] == moves[0];
        assert(solves(clear(cells, valid_moves(cells)[j]), moves.skip(1)));
        assert(solvable(clear(cells, valid_moves(cells)[j])));
    }
}

/// The tiles of the board are the tiles of the fourteen types together.
proof fn lemma_occupied_by_type(cells: Seq<Cell>, n: int)
    requires
        0 <= n <= cells.len(),
    ensures
        occupied_below(cells, n) == count_below(cells, Element::Salt, n) + count_below(
            cells,
            Element::Air,
            n,
        ) + count_below(cells, Element::Fire, n) + count_below(cells, Element::Water, n)
            + count_below(cells, Element::Earth, n) + count_below(cells, Element::Vitae, n)
            + count_below(cells, Element::Mors, n) + count_below(cells, Element::Quicksilver, n)
            + count_below(cells, Element::Lead, n) + count_below(cells, Element::Tin, n)
            + count_below(cells, Element::Iron, n) + count_below(cells, Element::Copper, n)
            + count_below(cells, Element::Silver, n) + count_below(cells, Element::Gold, n),
    decreases n,
{
    if n > 0 {
        lemma_occupied_by_type(cells, n - 1);
        assert forall|element: Element|
            #[trigger] count_below(cells, element, n) == count_below(cells, element, n - 1) + (
            if cells[n - 1] == Some(element) {
                1int
            } else {
                0int
            }) by {}
        match cells[n - 1] {
            None => {},
            Some(Element::Salt) => {},
            Some(Element::Air) => {},
            Some(Element::Fire) => {},
            Some(Element::Water) => {},
            Some(Element::Earth) => {},
            Some(Element::Vitae) => {},
            Some(Element::Mors) => {},
            Some(Element::Quicksilver) => {},
            Some(Element::Lead) => {},
            Some(Element::Tin) => {},
            Some(Element::Iron) => {},
            Some(Element::Copper) => {},
            Some(Element::Silver) => {},
            Some(Element::Gold) => {},
        }
    }
}

/// A board with the canonical composition holds 55 tiles, so it is not
/// empty.
pub proof fn lemma_composition_tile_count(cells: Seq<Cell>)
    requires
        cells.len() == 91,
        valid_composition(cells),
    ensures
        tile_count(cells) == 55,
        !all_empty(cells),
{
    lemma_occupied_by_type(cells, 91);
    assert(count_of(cells, Element::Salt) == canonical_count(Element::Salt));
    assert(count_of(cells, Element::Air) == canonical_count(Element::Air));
    assert(count_of(cells, Element::Fire) == canonical_count(Element::Fire));
    assert(count_of(cells, Element::Water) == canonical_count(Element::Water));
    assert(count_of(cells, Element::Earth) == canonical_count(Element::Earth));
    assert(count_of(cells, Element::Vitae) == canonical_count(Element::Vitae));
    assert(count_of(cells, Element::Mors) == canonical_count(Element::Mors));
    assert(count_of(cells, Element::Quicksilver) == canonical_count(Element::Quicksilver));
    assert(count_of(cells, Element::Lead) == canonical_count(Element::Lead));
    assert(count_of(cells, Element::Tin) == canonical_count(Element::Tin));
    assert(count_of(cells, Element::Iron) == canonical_count(Element::Iron));
    assert(count_of(cells, Element::Copper) == canonical_count(Element::Copper));
    assert(count_of(cells, Element::Silver) == canonical_count(Element::Silver));
    assert(count_of(cells, Element::Gold) == canonical_count(Element::Gold));
    lemma_empty_tile_count(cells);
}

/// A solution of a board with the canonical composition clears 55 cells and
/// replays to the empty board.
pub proof fn lemma_solution_of_initial_board(cells: Seq<Cell>, moves: Seq<(int, int)>)
    requires
        cells.len() == 91,
        valid_composition(cells),
        solves(cells, moves),
    ensures
        all_empty(replay(cells, moves)),
        cleared_cells(moves) == 55,
{
    lemma_composition_tile_count(cells);
    lemma_solution_clears_all(cells, moves);
}

} // verus!
