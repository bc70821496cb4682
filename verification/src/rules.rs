//! The rules of the puzzle, stated over the cells of a board: which tiles
//! are free, and which removals are legal moves.
//!
//! A position is a sequence of 91 cells. A move is a pair of cell indices,
//! both equal where a tile is removed alone.

use vstd::prelude::*;
use crate::element::{Cell, Element};
use crate::combinations::{
    cross, lemma_concat_contains, lemma_cross_contains, lemma_cross_len,
    lemma_ordered_pairs_contains, lemma_ordered_pairs_len, ordered_pairs, pairs_from,
};
use crate::index::{coord_of, in_diamond, index_of, neighbor};

verus! {

/// What stands in the way at `(row, col)`: the tile of the cell there, or
/// nothing where the cell is empty or the position lies off the board.
pub open spec fn tile_at(cells: Seq<Cell>, row: int, col: int) -> Cell {
    if in_diamond(row, col) {
        cells[index_of(row, col)]
    } else {
        None
    }
}

/// Whether nothing stands in neighbor slot `k` of `(row, col)`.
pub open spec fn slot_open(cells: Seq<Cell>, row: int, col: int, k: int) -> bool {
    tile_at(cells, neighbor(row, col, k).0, neighbor(row, col, k).1) is None
}

/// Whether the three slots `k`, `k + 1` and `k + 2` of `(row, col)`,
/// counted cyclically, are all open.
pub open spec fn window_open(cells: Seq<Cell>, row: int, col: int, k: int) -> bool {
    slot_open(cells, row, col, k) && slot_open(cells, row, col, (k + 1) % 6) && slot_open(
        cells,
        row,
        col,
        (k + 2) % 6,
    )
}

/// Whether `(row, col)` has open space to three consecutive sides.
pub open spec fn free_at(cells: Seq<Cell>, row: int, col: int) -> bool {
    exists|k: int| 0 <= k < 6 && #[trigger] window_open(cells, row, col, k)
}

/// Whether cell `i` holds a tile that may be removed now.
pub open spec fn free_tile(cells: Seq<Cell>, i: int) -> bool {
    0 <= i < 91 && cells[i] is Some && free_at(cells, coord_of(i).0, coord_of(i).1)
}

/// The free tiles with an index below `n`, in ascending order.
pub open spec fn free_below(cells: Seq<Cell>, n: int) -> Seq<int>
    decreases n,
{
    if n <= 0 {
        Seq::empty()
    } else if free_tile(cells, n - 1) {
        free_below(cells, n - 1).push(n - 1)
    } else {
        free_below(cells, n - 1)
    }
}

/// All free tiles of the position, in ascending order.
pub open spec fn free_tiles(cells: Seq<Cell>) -> Seq<int> {
    free_below(cells, 91)
}

/// Those of `indices` whose cell holds `element`, in the order given.
pub open spec fn holding(cells: Seq<Cell>, element: Element, indices: Seq<int>) -> Seq<int>
    decreases indices.len(),
{
    if indices.len() == 0 {
        Seq::empty()
    } else if cells[indices.last()] == Some(element) {
        holding(cells, element, indices.drop_last()).push(indices.last())
    } else {
        holding(cells, element, indices.drop_last())
    }
}

/// The free tiles of type `element`, in ascending order.
pub open spec fn free_of(cells: Seq<Cell>, element: Element) -> Seq<int> {
    holding(cells, element, free_tiles(cells))
}

/// Whether `s` is strictly ascending and within 0..`n`.
pub open spec fn ascending_below(s: Seq<int>, n: int) -> bool {
    &&& forall|i: int| 0 <= i < s.len() ==> 0 <= #[trigger] s[i] < n
    &&& forall|i: int, j: int| 0 <= i < j < s.len() ==> #[trigger] s[i] < #[trigger] s[j]
}

/// `free_below(cells, n)` lists exactly the free tiles below `n`, each once
/// and in ascending order.
pub proof fn lemma_free_below(cells: Seq<Cell>, n: int)
    requires
        0 <= n <= 91,
    ensures
        ascending_below(free_below(cells, n), n),
        free_below(cells, n).len() <= n,
        forall|x: int| free_below(cells, n).contains(x) <==> (free_tile(cells, x) && x < n),
    decreases n,
{
    if n > 0 {
        lemma_free_below(cells, n - 1);
        let prev = free_below(cells, n - 1);
        let cur = free_below(cells, n);
        assert forall|x: int| cur.contains(x) <==> (free_tile(cells, x) && x < n) by {
            if free_tile(cells, n - 1) {
                assert(cur == prev.push(n - 1));
                if cur.contains(x) {
                    let k = choose|k: int| 0 <= k < cur.len() && cur[k] == x;
                    if k < prev.len() {
                        assert(prev[k] == x);
                        assert(prev.contains(x));
                    }
                }
                if free_tile(cells, x) && x < n {
                    if x == n - 1 {
                        assert(cur[prev.len() as int] == x);
                    } else {
                        assert(prev.contains(x));
                        let k = choose|k: int| 0 <= k < prev.len() && prev[k] == x;
                        assert(cur[k] == x);
                    }
                }
            }
        }
    } else {
        assert forall|x: int| free_below(cells, n).contains(x) <==> (free_tile(cells, x) && x
            < n) by {}
    }
}

/// `holding` keeps the order of `indices` and selects exactly those whose
/// cell holds `element`.
pub proof fn lemma_holding(cells: Seq<Cell>, element: Element, indices: Seq<int>, n: int)
    requires
        ascending_below(indices, n),
    ensures
        ascending_below(holding(cells, element, indices), n),
        holding(cells, element, indices).len() <= indices.len(),
        forall|x: int|
            holding(cells, element, indices).contains(x) <==> (indices.contains(x) && cells[x]
                == Some(element)),
        forall|i: int|
            0 <= i < holding(cells, element, indices).len() && indices.len() > 0
                ==> #[trigger] holding(cells, element, indices)[i] <= indices.last(),
    decreases indices.len(),
{
    let cur = holding(cells, element, indices);
    if indices.len() > 0 {
        let init = indices.drop_last();
        let last = indices.last();
        lemma_holding(cells, element, init, n);
        let prev = holding(cells, element, init);
        assert forall|i: int| 0 <= i < prev.len() implies #[trigger] prev[i] < last by {
            assert(prev.contains(prev[i]));
            assert(init.contains(prev[i]));
            let k = choose|k: int| 0 <= k < init.len() && init[k] == prev[i];
            assert(indices[k] == init[k]);
        }
        assert forall|x: int| cur.contains(x) <==> (indices.contains(x) && cells[x] == Some(
            element,
        )) by {
            if cur.contains(x) {
                let k = choose|k: int| 0 <= k < cur.len() && cur[k] == x;
                if k < prev.len() {
                    assert(prev[k] == x);
                    assert(prev.contains(x));
                    let m = choose|m: int| 0 <= m < init.len() && init[m] == x;
                    assert(indices[m] == x);
                } else {
                    assert(x == last);
                    assert(indices[indices.len() - 1] == x);
                }
            }
            if indices.contains(x) && cells[x] == Some(element) {
                let m = choose|m: int| 0 <= m < indices.len() && indices[m] == x;
                if m < init.len() {
                    assert(init[m] == x);
                    assert(init.contains(x));
                    assert(prev.contains(x));
                    let k = choose|k: int| 0 <= k < prev.len() && prev[k] == x;
                    assert(cur[k] == x);
                } else {
                    assert(cur[cur.len() - 1] == x);
                }
            }
        }
    } else {
        assert forall|x: int| cur.contains(x) <==> (indices.contains(x) && cells[x] == Some(
            element,
        )) by {}
    }
}

/// The free tiles of one type are listed in ascending order, each once, and
/// are exactly the free tiles whose cell holds that type.
pub proof fn lemma_free_of(cells: Seq<Cell>, element: Element)
    ensures
        ascending_below(free_of(cells, element), 91),
        free_of(cells, element).len() <= 91,
        forall|x: int|
            free_of(cells, element).contains(x) <==> (free_tile(cells, x) && cells[x] == Some(
                element,
            )),
{
    lemma_free_below(cells, 91);
    lemma_holding(cells, element, free_tiles(cells), 91);
}

/// Whether some cell holds a tile of type `element`, free or not.
pub open spec fn present(cells: Seq<Cell>, element: Element) -> bool {
    exists|i: int| 0 <= i < 91 && #[trigger] cells[i] == Some(element)
}

/// Whether `i` is the first cell, in canonical order, that holds a tile of
/// type `element`.
pub open spec fn is_first(cells: Seq<Cell>, element: Element, i: int) -> bool {
    &&& 0 <= i < 91
    &&& cells[i] == Some(element)
    &&& forall|j: int| 0 <= j < i ==> #[trigger] cells[j] != Some(element)
}

/// The first cell that holds a tile of type `element`, where one does.
pub open spec fn first_holding(cells: Seq<Cell>, element: Element) -> int {
    choose|i: int| is_first(cells, element, i)
}

/// The metal that is next in line: the first of Lead, Tin, Iron, Copper and
/// Silver of which a tile is left on the board, free or not.
pub open spec fn lowest_metal(cells: Seq<Cell>) -> Option<Element> {
    if present(cells, Element::Lead) {
        Some(Element::Lead)
    } else if present(cells, Element::Tin) {
        Some(Element::Tin)
    } else if present(cells, Element::Iron) {
        Some(Element::Iron)
    } else if present(cells, Element::Copper) {
        Some(Element::Copper)
    } else if present(cells, Element::Silver) {
        Some(Element::Silver)
    } else {
        None
    }
}

/// The free tiles of the four basic elements: those of Air, then Fire,
/// Water and Earth.
pub open spec fn free_basics(cells: Seq<Cell>) -> Seq<int> {
    free_of(cells, Element::Air) + free_of(cells, Element::Fire) + free_of(cells, Element::Water)
        + free_of(cells, Element::Earth)
}

/// The moves that remove a Salt tile: with another Salt tile, or with a tile
/// of a basic element.
pub open spec fn salt_moves(cells: Seq<Cell>) -> Seq<(int, int)> {
    ordered_pairs(free_of(cells, Element::Salt)) + cross(
        free_of(cells, Element::Salt),
        free_basics(cells),
        true,
    )
}

/// The moves that remove two tiles of the same basic element.
pub open spec fn basic_moves(cells: Seq<Cell>) -> Seq<(int, int)> {
    ordered_pairs(free_of(cells, Element::Air)) + ordered_pairs(free_of(cells, Element::Fire))
        + ordered_pairs(free_of(cells, Element::Water)) + ordered_pairs(
        free_of(cells, Element::Earth),
    )
}

/// The moves that remove a Mors tile with a Vitae tile.
pub open spec fn life_moves(cells: Seq<Cell>) -> Seq<(int, int)> {
    cross(free_of(cells, Element::Mors), free_of(cells, Element::Vitae), false)
}

/// The moves of the metal chain. While a metal is left, only the metal next
/// in line may leave, with a Quicksilver tile, and only if it is free. Once
/// no metal is left, the first free Gold tile may leave alone.
pub open spec fn metal_moves(cells: Seq<Cell>) -> Seq<(int, int)> {
    match lowest_metal(cells) {
        Some(metal) => {
            if free_tile(cells, first_holding(cells, metal)) {
                pairs_from(first_holding(cells, metal), free_of(cells, Element::Quicksilver))
            } else {
                Seq::empty()
            }
        },
        None => {
            if free_of(cells, Element::Gold).len() > 0 {
                seq![(free_of(cells, Element::Gold)[0], free_of(cells, Element::Gold)[0])]
            } else {
                Seq::empty()
            }
        },
    }
}

/// All legal moves of a position, in the order in which they are generated:
/// the most constrained kinds last.
pub open spec fn valid_moves(cells: Seq<Cell>) -> Seq<(int, int)> {
    salt_moves(cells) + basic_moves(cells) + life_moves(cells) + metal_moves(cells)
}

/// An upper bound on the number of legal moves of any position.
pub const MAX_MOVES: usize = 62000;

/// Whether the cells `a` and `b` hold free tiles of the types `first` and
/// `second`.
pub open spec fn free_pair(cells: Seq<Cell>, a: int, b: int, first: Element, second: Element)
    -> bool {
    free_tile(cells, a) && free_tile(cells, b) && cells[a] == Some(first) && cells[b] == Some(
        second,
    )
}

/// Whether clearing the cells `a` and `b` is a legal move, by the rules of
/// the puzzle.
pub open spec fn legal_move(cells: Seq<Cell>, a: int, b: int) -> bool {
    ||| a < b && free_pair(cells, a, b, Element::Salt, Element::Salt)
    ||| exists|basic: Element|
        basic.is_basic() && #[trigger] free_pair(cells, a, b, basic, Element::Salt)
    ||| exists|basic: Element|
        basic.is_basic() && a < b && #[trigger] free_pair(cells, a, b, basic, basic)
    ||| free_pair(cells, a, b, Element::Mors, Element::Vitae)
    ||| exists|metal: Element|
        lowest_metal(cells) == Some(metal) && is_first(cells, metal, a) && #[trigger] free_pair(
            cells,
            a,
            b,
            metal,
            Element::Quicksilver,
        )
    ||| (lowest_metal(cells) is None && a == b && free_pair(
        cells,
        a,
        a,
        Element::Gold,
        Element::Gold,
    ) && forall|j: int| 0 <= j < a ==> !#[trigger] free_pair(
        cells,
        j,
        j,
        Element::Gold,
        Element::Gold,
    ))
}

/// At most one cell is the first to hold a given type.
pub proof fn lemma_first_unique(cells: Seq<Cell>, element: Element, i: int)
    requires
        is_first(cells, element, i),
    ensures
        first_holding(cells, element) == i,
        present(cells, element),
{
    let f = first_holding(cells, element);
    assert(is_first(cells, element, f));
    if f < i {
        assert(cells[f] != Some(element));
    }
    if i < f {
        assert(cells[i] != Some(element));
    }
}

/// The pairs drawn from the free tiles of one type are the pairs of two
/// such tiles, the one with the lower index first.
pub proof fn lemma_same_type_pairs(cells: Seq<Cell>, element: Element, a: int, b: int)
    ensures
        ordered_pairs(free_of(cells, element)).contains((a, b)) <==> (a < b && free_pair(
            cells,
            a,
            b,
            element,
            element,
        )),
{
    let s = free_of(cells, element);
    lemma_free_of(cells, element);
    lemma_ordered_pairs_contains(s, (a, b));
    if a < b && free_pair(cells, a, b, element, element) {
        assert(s.contains(a) && s.contains(b));
        let i = choose|i: int| 0 <= i < s.len() && s[i] == a;
        let j = choose|j: int| 0 <= j < s.len() && s[j] == b;
        if j <= i {
            if j < i {
                assert(s[j] < s[i]);
            }
        }
        assert(0 <= i < j < s.len() && s[i] == a && s[j] == b);
    }
    if ordered_pairs(s).contains((a, b)) {
        let (i, j) = choose|i: int, j: int|
            #![trigger s[i], s[j]]
            0 <= i < j < s.len() && s[i] == a && s[j] == b;
        assert(s.contains(a) && s.contains(b));
        assert(s[i] < s[j]);
    }
}

/// The free tiles of the basic elements are the free tiles whose type is one
/// of the four.
pub proof fn lemma_free_basics(cells: Seq<Cell>, x: int)
    ensures
        free_basics(cells).contains(x) <==> (free_tile(cells, x) && exists|basic: Element|
            basic.is_basic() && #[trigger] cells[x] == Some(basic)),
        free_basics(cells).len() <= 364,
{
    let air = free_of(cells, Element::Air);
    let fire = free_of(cells, Element::Fire);
    let water = free_of(cells, Element::Water);
    let earth = free_of(cells, Element::Earth);
    lemma_free_of(cells, Element::Air);
    lemma_free_of(cells, Element::Fire);
    lemma_free_of(cells, Element::Water);
    lemma_free_of(cells, Element::Earth);
    lemma_concat_contains(air, fire, x);
    lemma_concat_contains(air + fire, water, x);
    lemma_concat_contains(air + fire + water, earth, x);
    if free_basics(cells).contains(x) {
        let basic = cells[x]->Some_0;
        assert(basic.is_basic() && cells[x] == Some(basic));
    }
}

/// The generator yields exactly the legal moves: a pair of cells is among
/// the moves generated for a position if and only if the rules allow it.
pub proof fn lemma_valid_moves_legal(cells: Seq<Cell>, a: int, b: int)
    ensures
        valid_moves(cells).contains((a, b)) <==> legal_move(cells, a, b),
{
    let p = (a, b);
    let salt_pairs = ordered_pairs(free_of(cells, Element::Salt));
    let salt_basic = cross(free_of(cells, Element::Salt), free_basics(cells), true);
    let air = ordered_pairs(free_of(cells, Element::Air));
    let fire = ordered_pairs(free_of(cells, Element::Fire));
    let water = ordered_pairs(free_of(cells, Element::Water));
    let earth = ordered_pairs(free_of(cells, Element::Earth));
    lemma_concat_contains(salt_pairs, salt_basic, p);
    lemma_concat_contains(air, fire, p);
    lemma_concat_contains(air + fire, water, p);
    lemma_concat_contains(air + fire + water, earth, p);
    lemma_concat_contains(salt_moves(cells), basic_moves(cells), p);
    lemma_concat_contains(salt_moves(cells) + basic_moves(cells), life_moves(cells), p);
    lemma_concat_contains(
        salt_moves(cells) + basic_moves(cells) + life_moves(cells),
        metal_moves(cells),
        p,
    );

    // Salt with Salt.
    lemma_same_type_pairs(cells, Element::Salt, a, b);
    // Salt with a basic element.
    lemma_cross_contains(free_of(cells, Element::Salt), free_basics(cells), true, p);
    lemma_free_of(cells, Element::Salt);
    lemma_free_basics(cells, a);
    assert(salt_basic.contains(p) <==> exists|basic: Element|
        basic.is_basic() && #[trigger] free_pair(cells, a, b, basic, Element::Salt)) by {
        if salt_basic.contains(p) {
            let basic = choose|basic: Element| basic.is_basic() && #[trigger] cells[a] == Some(basic);
            assert(free_pair(cells, a, b, basic, Element::Salt));
        }
        if exists|basic: Element|
            basic.is_basic() && #[trigger] free_pair(cells, a, b, basic, Element::Salt) {
            let basic = choose|basic: Element|
                basic.is_basic() && #[trigger] free_pair(cells, a, b, basic, Element::Salt);
            assert(basic.is_basic() && cells[a] == Some(basic));
        }
    }
    // Two tiles of one basic element.
    lemma_same_type_pairs(cells, Element::Air, a, b);
    lemma_same_type_pairs(cells, Element::Fire, a, b);
    lemma_same_type_pairs(cells, Element::Water, a, b);
    lemma_same_type_pairs(cells, Element::Earth, a, b);
    assert(basic_moves(cells).contains(p) <==> exists|basic: Element|
        basic.is_basic() && a < b && #[trigger] free_pair(cells, a, b, basic, basic)) by {
        if basic_moves(cells).contains(p) {
            if air.contains(p) {
                assert(Element::Air.is_basic() && free_pair(cells, a, b, Element::Air, Element::Air));
            } else if fire.contains(p) {
                assert(Element::Fire.is_basic() && free_pair(
                    cells,
                    a,
                    b,
                    Element::Fire,
                    Element::Fire,
                ));
            } else if water.contains(p) {
                assert(Element::Water.is_basic() && free_pair(
                    cells,
                    a,
                    b,
                    Element::Water,
                    Element::Water,
                ));
            } else {
                assert(Element::Earth.is_basic() && free_pair(
                    cells,
                    a,
                    b,
                    Element::Earth,
                    Element::Earth,
                ));
            }
        }
    }
    // Mors with Vitae.
    lemma_cross_contains(free_of(cells, Element::Mors), free_of(cells, Element::Vitae), false, p);
    lemma_free_of(cells, Element::Mors);
    lemma_free_of(cells, Element::Vitae);
    // The metal chain.
    lemma_metal_moves_legal(cells, a, b);
}

/// The moves of the metal chain are those that its rule allows.
pub proof fn lemma_metal_moves_legal(cells: Seq<Cell>, a: int, b: int)
    ensures
        metal_moves(cells).contains((a, b)) <==> ((exists|metal: Element|
            lowest_metal(cells) == Some(metal) && is_first(cells, metal, a) && #[trigger] free_pair(
                cells,
                a,
                b,
                metal,
                Element::Quicksilver,
            )) || (lowest_metal(cells) is None && a == b && free_pair(
            cells,
            a,
            a,
            Element::Gold,
            Element::Gold,
        ) && forall|j: int| 0 <= j < a ==> !#[trigger] free_pair(
            cells,
            j,
            j,
            Element::Gold,
            Element::Gold,
        ))),
{
    let p = (a, b);
    let moves = metal_moves(cells);
    lemma_free_of(cells, Element::Quicksilver);
    lemma_free_of(cells, Element::Gold);
    let quick = free_of(cells, Element::Quicksilver);
    let gold = free_of(cells, Element::Gold);
    match lowest_metal(cells) {
        Some(metal) => {
            assert(present(cells, metal));
            lemma_first_exists(cells, metal);
            let at = first_holding(cells, metal);
            assert(is_first(cells, metal, at));
            if moves.contains(p) {
                let k = choose|k: int| 0 <= k < moves.len() && moves[k] == p;
                assert(quick[k] == b);
                assert(quick.contains(b));
                assert(free_pair(cells, a, b, metal, Element::Quicksilver));
            }
            if exists|other: Element|
                lowest_metal(cells) == Some(other) && is_first(cells, other, a)
                    && #[trigger] free_pair(cells, a, b, other, Element::Quicksilver) {
                lemma_first_unique(cells, metal, a);
                assert(quick.contains(b));
                let k = choose|k: int| 0 <= k < quick.len() && quick[k] == b;
                assert(moves[k] == p);
            }
        },
        None => {
            if gold.len() > 0 {
                let g = gold[0];
                assert(gold.contains(g));
                assert(moves[0] == (g, g));
                assert forall|j: int| 0 <= j < g implies !#[trigger] free_pair(
                    cells,
                    j,
                    j,
                    Element::Gold,
                    Element::Gold,
                ) by {
                    if free_pair(cells, j, j, Element::Gold, Element::Gold) {
                        assert(gold.contains(j));
                        let k = choose|k: int| 0 <= k < gold.len() && gold[k] == j;
                        if k > 0 {
                            assert(gold[0] < gold[k]);
                        }
                    }
                }
                if a == b && free_pair(cells, a, a, Element::Gold, Element::Gold) && (forall|
                    j: int,
                |
                    0 <= j < a ==> !#[trigger] free_pair(
                        cells,
                        j,
                        j,
                        Element::Gold,
                        Element::Gold,
                    )) {
                    if g < a {
                        assert(free_pair(cells, g, g, Element::Gold, Element::Gold));
                    }
                    assert(a == g);
                }
            } else {
                if free_pair(cells, a, a, Element::Gold, Element::Gold) {
                    assert(gold.contains(a));
                }
            }
        },
    }
}

/// Where a type is present, some cell is the first to hold it.
pub proof fn lemma_first_exists(cells: Seq<Cell>, element: Element)
    requires
        present(cells, element),
    ensures
        is_first(cells, element, first_holding(cells, element)),
{
    let i = choose|i: int| 0 <= i < 91 && #[trigger] cells[i] == Some(element);
    lemma_first_below(cells, element, i);
}

/// Where cell `i` holds a type, some cell up to `i` is the first to hold it.
proof fn lemma_first_below(cells: Seq<Cell>, element: Element, i: int)
    requires
        0 <= i < 91,
        cells[i] == Some(element),
    ensures
        exists|f: int| is_first(cells, element, f),
    decreases i,
{
    if exists|j: int| 0 <= j < i && #[trigger] cells[j] == Some(element) {
        let j = choose|j: int| 0 <= j < i && #[trigger] cells[j] == Some(element);
        lemma_first_below(cells, element, j);
    } else {
        assert(is_first(cells, element, i));
    }
}

/// A legal move clears occupied cells of the board.
pub proof fn lemma_valid_move_occupied(cells: Seq<Cell>, a: int, b: int)
    requires
        valid_moves(cells).contains((a, b)),
    ensures
        0 <= a < 91,
        0 <= b < 91,
        cells[a] is Some,
        cells[b] is Some,
        free_tile(cells, a),
        free_tile(cells, b),
{
    lemma_valid_moves_legal(cells, a, b);
}

/// No position has more than `MAX_MOVES` legal moves.
pub proof fn lemma_valid_moves_len(cells: Seq<Cell>)
    ensures
        valid_moves(cells).len() <= MAX_MOVES,
{
    lemma_free_of(cells, Element::Salt);
    lemma_free_of(cells, Element::Air);
    lemma_free_of(cells, Element::Fire);
    lemma_free_of(cells, Element::Water);
    lemma_free_of(cells, Element::Earth);
    lemma_free_of(cells, Element::Mors);
    lemma_free_of(cells, Element::Vitae);
    lemma_free_of(cells, Element::Quicksilver);
    lemma_free_of(cells, Element::Gold);
    lemma_free_basics(cells, 0);
    lemma_pairs_bound(free_of(cells, Element::Salt));
    lemma_pairs_bound(free_of(cells, Element::Air));
    lemma_pairs_bound(free_of(cells, Element::Fire));
    lemma_pairs_bound(free_of(cells, Element::Water));
    lemma_pairs_bound(free_of(cells, Element::Earth));
    lemma_cross_bound(free_of(cells, Element::Salt), free_basics(cells), true, 91, 364);
    lemma_cross_bound(free_of(cells, Element::Mors), free_of(cells, Element::Vitae), false, 91, 91);
}

proof fn lemma_pairs_bound(s: Seq<int>)
    requires
        s.len() <= 91,
    ensures
        ordered_pairs(s).len() <= 4095,
{
    lemma_ordered_pairs_len(s);
    let n = s.len() as int;
    assert(n * (n - 1) <= 91 * 90) by (nonlinear_arith)
        requires
            0 <= n <= 91,
    ;
}

proof fn lemma_cross_bound(outer: Seq<int>, inner: Seq<int>, flipped: bool, n: int, m: int)
    requires
        outer.len() <= n,
        inner.len() <= m,
    ensures
        cross(outer, inner, flipped).len() <= n * m,
{
    lemma_cross_len(outer, inner, flipped);
    let x = outer.len() as int;
    let y = inner.len() as int;
    assert(x * y <= n * m) by (nonlinear_arith)
        requires
            0 <= x <= n,
            0 <= y <= m,
    ;
}

/// The number of cells below `n` that hold a tile of type `element`.
pub open spec fn count_below(cells: Seq<Cell>, element: Element, n: int) -> nat
    decreases n,
{
    if n <= 0 {
        0
    } else if cells[n - 1] == Some(element) {
        count_below(cells, element, n - 1) + 1
    } else {
        count_below(cells, element, n - 1)
    }
}

/// The number of tiles of type `element` on the board.
pub open spec fn count_of(cells: Seq<Cell>, element: Element) -> nat {
    count_below(cells, element, 91)
}

/// How many tiles of each type a game starts with: 55 in all.
pub open spec fn canonical_count(element: Element) -> nat {
    match element {
        Element::Salt => 4,
        Element::Air => 8,
        Element::Fire => 8,
        Element::Water => 8,
        Element::Earth => 8,
        Element::Vitae => 4,
        Element::Mors => 4,
        Element::Quicksilver => 5,
        Element::Lead => 1,
        Element::Tin => 1,
        Element::Iron => 1,
        Element::Copper => 1,
        Element::Silver => 1,
        Element::Gold => 1,
    }
}

/// Whether the board holds exactly the tiles that a game starts with.
pub open spec fn valid_composition(cells: Seq<Cell>) -> bool {
    forall|element: Element| #[trigger] count_of(cells, element) == canonical_count(element)
}

/// A cell with three consecutive open sides is free, wherever the three
/// sides lie: the window may wrap around from the last slot to the first.
pub proof fn lemma_open_window_is_free(cells: Seq<Cell>, row: int, col: int, k: int)
    requires
        0 <= k < 6,
        slot_open(cells, row, col, k),
        slot_open(cells, row, col, (k + 1) % 6),
        slot_open(cells, row, col, (k + 2) % 6),
    ensures
        free_at(cells, row, col),
{
    assert(window_open(cells, row, col, k));
}

/// A cell is not free where a tile stands in the first, the fourth and the
/// sixth slot: no three consecutive sides are open then, whatever the other
/// three slots hold.
pub proof fn lemma_blocked_pattern_is_not_free(cells: Seq<Cell>, row: int, col: int)
    requires
        !slot_open(cells, row, col, 0),
        !slot_open(cells, row, col, 3),
        !slot_open(cells, row, col, 5),
    ensures
        !free_at(cells, row, col),
{
    assert forall|k: int| 0 <= k < 6 implies !#[trigger] window_open(cells, row, col, k) by {
        if k == 0 {
        } else if k == 1 {
        } else if k == 2 {
        } else if k == 3 {
        } else if k == 4 {
        } else {
        }
    }
}

/// Metals leave in order. A move that clears a metal tile clears the first
/// tile of the metal next in line, together with a Quicksilver tile; and
/// while any metal is left, no move clears a Gold tile. Once no metal is
/// left, a move that clears a Gold tile clears that tile alone.
pub proof fn lemma_metal_ordering(cells: Seq<Cell>, a: int, b: int)
    requires
        valid_moves(cells).contains((a, b)),
    ensures
        forall|metal: Element|
            metal.is_metal() && (cells[a] == Some(metal) || #[trigger] cells[b] == Some(metal))
                ==> lowest_metal(cells) == Some(metal) && is_first(cells, metal, a) && cells[b]
                == Some(Element::Quicksilver),
        (cells[a] == Some(Element::Gold) || cells[b] == Some(Element::Gold)) ==> lowest_metal(
            cells,
        ) is None && a == b,
{
    lemma_valid_moves_legal(cells, a, b);
    lemma_valid_move_occupied(cells, a, b);
}

/// While a Lead tile is on the board, its first tile, if free, pairs with
/// every free Quicksilver tile, and no legal move touches a Tin tile or a
/// Gold tile, free or not.
pub proof fn lemma_lead_before_tin(cells: Seq<Cell>, lead: int, quicksilver: int)
    requires
        is_first(cells, Element::Lead, lead),
        free_pair(cells, lead, quicksilver, Element::Lead, Element::Quicksilver),
    ensures
        valid_moves(cells).contains((lead, quicksilver)),
        forall|a: int, b: int| #[trigger]
            valid_moves(cells).contains((a, b)) ==> cells[a] != Some(Element::Tin) && cells[b]
                != Some(Element::Tin) && cells[a] != Some(Element::Gold) && cells[b] != Some(
                Element::Gold,
            ),
{
    lemma_first_unique(cells, Element::Lead, lead);
    lemma_valid_moves_legal(cells, lead, quicksilver);
    assert forall|a: int, b: int| #[trigger]
        valid_moves(cells).contains((a, b)) implies cells[a] != Some(Element::Tin) && cells[b]
        != Some(Element::Tin) && cells[a] != Some(Element::Gold) && cells[b] != Some(
        Element::Gold,
    ) by {
        lemma_metal_ordering(cells, a, b);
        assert(Element::Tin.is_metal());
    }
}

/// Gold waits for the metals. With no metal left, the first free Gold tile
/// yields exactly one move, which clears that tile alone, and no other move
/// touches a Gold tile. With any metal left, free or not, no move touches a
/// Gold tile, free or not.
pub proof fn lemma_gold_gating(cells: Seq<Cell>, gold: int)
    requires
        free_pair(cells, gold, gold, Element::Gold, Element::Gold),
        forall|j: int|
            0 <= j < gold ==> !#[trigger] free_pair(cells, j, j, Element::Gold, Element::Gold),
    ensures
        lowest_metal(cells) is None ==> metal_moves(cells) == seq![(gold, gold)],
        lowest_metal(cells) is None ==> forall|a: int, b: int| #[trigger]
            valid_moves(cells).contains((a, b)) && (cells[a] == Some(Element::Gold) || cells[b]
                == Some(Element::Gold)) ==> a == gold && b == gold,
        lowest_metal(cells) is Some ==> forall|a: int, b: int| #[trigger]
            valid_moves(cells).contains((a, b)) ==> cells[a] != Some(Element::Gold) && cells[b]
                != Some(Element::Gold),
{
    assert forall|a: int, b: int| #[trigger]
        valid_moves(cells).contains((a, b)) && (cells[a] == Some(Element::Gold) || cells[b]
        == Some(Element::Gold)) implies lowest_metal(cells) is None && a == gold && b
        == gold by {
        lemma_metal_ordering(cells, a, b);
        lemma_valid_moves_legal(cells, a, b);
        if a < gold {
            assert(!free_pair(cells, a, a, Element::Gold, Element::Gold));
        }
        if gold < a {
            assert(!free_pair(cells, gold, gold, Element::Gold, Element::Gold));
        }
    }
    if lowest_metal(cells) is None {
        lemma_metal_moves_legal(cells, gold, gold);
        let moves = metal_moves(cells);
        assert(moves.contains((gold, gold)));
        assert(moves.len() == 1);
        assert(moves[0] == (gold, gold));
        assert(moves =~= seq![(gold, gold)]);
    }
}

/// The composition check is exact: a board on which the count of any one
/// type is off, by one or by more, does not pass.
pub proof fn lemma_composition_is_exact(cells: Seq<Cell>, element: Element)
    requires
        count_of(cells, element) != canonical_count(element),
    ensures
        !valid_composition(cells),
{
}

/// Putting a tile into an empty cell, or taking one out, changes the count
/// of its type by one and no other count: so it turns a board with the
/// canonical composition into one without.
pub proof fn lemma_one_tile_changes_composition(cells: Seq<Cell>, i: int, cell: Cell)
    requires
        cells.len() == 91,
        0 <= i < 91,
        valid_composition(cells),
        (cells[i] is None) != (cell is None),
    ensures
        !valid_composition(cells.update(i, cell)),
{
    let changed = cells.update(i, cell);
    let element = if cell is Some {
        cell->Some_0
    } else {
        cells[i]->Some_0
    };
    lemma_count_update(cells, i, cell, element, 91);
    assert(count_of(cells, element) == canonical_count(element));
    lemma_composition_is_exact(changed, element);
}

/// How the count of a type changes where one cell changes.
pub proof fn lemma_count_update(cells: Seq<Cell>, i: int, cell: Cell, element: Element, n: int)
    requires
        0 <= i < cells.len(),
        0 <= n <= cells.len(),
    ensures
        count_below(cells.update(i, cell), element, n) == count_below(cells, element, n) + (if i
            < n && cell == Some(element) {
            1int
        } else {
            0int
        }) - (if i < n && cells[i] == Some(element) {
            1int
        } else {
            0int
        }),
    decreases n,
{
    if n > 0 {
        lemma_count_update(cells, i, cell, element, n - 1);
    }
}

} // verus!
