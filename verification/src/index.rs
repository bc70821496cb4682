//! The coordinate system of the board: linear indices, axial coordinates
//! and the mapping between the two.
//!
//! The 91 cells form a hexagonal diamond. Rows run from -5 (top) to 5
//! (bottom); columns are skewed, so that a cell `(row, col)` lies inside the
//! board when `row`, `col` and `row - col` all lie in -5..=5. Indices count
//! the cells row by row, from 0 to 90.

use vstd::prelude::*;
use vstd::std_specs::convert::FromSpecImpl;

verus! {

/// Whether `(row, col)` names a cell of the board.
pub open spec fn in_diamond(row: int, col: int) -> bool {
    -5 <= row <= 5 && -5 <= col <= 5 && -5 <= row - col <= 5
}

/// The index of the (possibly virtual) cell at column 0 of a row.
pub open spec fn row_offset(row: int) -> int {
    45 + row * 11 - row * ((if row < 0 { -row } else { row }) + 1) / 2
}

/// The index of the cell `(row, col)`.
pub open spec fn index_of(row: int, col: int) -> int {
    col + row_offset(row)
}

/// The row in which the cell with index `index` lies.
pub open spec fn row_of(index: int) -> int {
    if index < 6 {
        -5
    } else if index < 13 {
        -4
    } else if index < 21 {
        -3
    } else if index < 30 {
        -2
    } else if index < 40 {
        -1
    } else if index < 51 {
        0
    } else if index < 61 {
        1
    } else if index < 70 {
        2
    } else if index < 78 {
        3
    } else if index < 85 {
        4
    } else {
        5
    }
}

/// The coordinate `(row, col)` of the cell with index `index`.
pub open spec fn coord_of(index: int) -> (int, int) {
    (row_of(index), index - row_offset(row_of(index)))
}

/// The `k`-th neighbor of `(row, col)`, clockwise from the right: slots 0 to
/// 5. The neighbor may lie outside the board.
pub open spec fn neighbor(row: int, col: int, k: int) -> (int, int) {
    if k == 0 {
        (row + 1, col)
    } else if k == 1 {
        (row + 1, col + 1)
    } else if k == 2 {
        (row, col + 1)
    } else if k == 3 {
        (row - 1, col)
    } else if k == 4 {
        (row - 1, col - 1)
    } else {
        (row, col - 1)
    }
}

/// Whether two coordinates are adjacent on the hex grid.
pub open spec fn adjacent(a: (int, int), b: (int, int)) -> bool {
    ||| (b.1 == a.1 && (b.0 == a.0 + 1 || b.0 == a.0 - 1))
    ||| (b.0 == a.0 && (b.1 == a.1 + 1 || b.1 == a.1 - 1))
    ||| (b.0 == a.0 + 1 && b.1 == a.1 + 1)
    ||| (b.0 == a.0 - 1 && b.1 == a.1 - 1)
}

/// The values of `row_offset` on the eleven rows of the board.
pub proof fn lemma_row_offsets()
    ensures
        row_offset(-5) == 5,
        row_offset(-4) == 11,
        row_offset(-3) == 18,
        row_offset(-2) == 26,
        row_offset(-1) == 35,
        row_offset(0) == 45,
        row_offset(1) == 55,
        row_offset(2) == 64,
        row_offset(3) == 72,
        row_offset(4) == 79,
        row_offset(5) == 85,
{
}

/// Every index in 0..91 names a cell of the board and is recovered from the
/// coordinate it maps to.
pub proof fn lemma_index_round_trip(index: int)
    requires
        0 <= index < 91,
    ensures
        in_diamond(coord_of(index).0, coord_of(index).1),
        index_of(coord_of(index).0, coord_of(index).1) == index,
{
    lemma_row_offsets();
}

/// Every cell of the board has an index in 0..91 from which its coordinate
/// is recovered.
pub proof fn lemma_coord_round_trip(row: int, col: int)
    requires
        in_diamond(row, col),
    ensures
        0 <= index_of(row, col) < 91,
        coord_of(index_of(row, col)) == (row, col),
{
    lemma_row_offsets();
}

/// Distinct indices map to distinct coordinates, and distinct cells of the
/// board have distinct indices: the mapping is a bijection between 0..91 and
/// the diamond.
pub proof fn lemma_index_coord_bijection()
    ensures
        forall|i: int|
            0 <= i < 91 ==> in_diamond(#[trigger] coord_of(i).0, coord_of(i).1) && index_of(
                coord_of(i).0,
                coord_of(i).1,
            ) == i,
        forall|i: int, j: int|
            0 <= i < 91 && 0 <= j < 91 && i != j ==> #[trigger] coord_of(i) != #[trigger] coord_of(
                j,
            ),
        forall|row: int, col: int|
            in_diamond(row, col) ==> 0 <= #[trigger] index_of(row, col) < 91 && coord_of(
                index_of(row, col),
            ) == (row, col),
{
    assert forall|i: int| 0 <= i < 91 implies in_diamond(#[trigger] coord_of(i).0, coord_of(i).1)
        && index_of(coord_of(i).0, coord_of(i).1) == i by {
        lemma_index_round_trip(i);
    }
    assert forall|i: int, j: int| 0 <= i < 91 && 0 <= j < 91 && i != j implies #[trigger] coord_of(
        i,
    ) != #[trigger] coord_of(j) by {
        lemma_index_round_trip(i);
        lemma_index_round_trip(j);
    }
    assert forall|row: int, col: int| in_diamond(row, col) implies 0 <= #[trigger] index_of(
        row,
        col,
    ) < 91 && coord_of(index_of(row, col)) == (row, col) by {
        lemma_coord_round_trip(row, col);
    }
}

/// The six neighbor slots of a coordinate hold six different coordinates,
/// each adjacent to it.
pub proof fn lemma_neighbors_distinct_adjacent(row: int, col: int, k: int, l: int)
    requires
        0 <= k < 6,
        0 <= l < 6,
    ensures
        adjacent((row, col), neighbor(row, col, k)),
        k != l ==> neighbor(row, col, k) != neighbor(row, col, l),
{
}

/// Whether the cell `(row, col)` lies on the rim of the board.
pub open spec fn on_rim(row: int, col: int) -> bool {
    in_diamond(row, col) && (row == 5 || row == -5 || col == 5 || col == -5 || row - col == 5
        || row - col == -5)
}

/// A cell of the board has all six neighbors on the board unless it lies on
/// the rim: there, some neighbor slot lies off the board.
pub proof fn lemma_rim_neighbors(row: int, col: int)
    requires
        in_diamond(row, col),
    ensures
        on_rim(row, col) <==> exists|k: int|
            0 <= k < 6 && !in_diamond(
                (#[trigger] neighbor(row, col, k)).0,
                neighbor(row, col, k).1,
            ),
{
    if on_rim(row, col) {
        if row == 5 {
            assert(!in_diamond(neighbor(row, col, 0).0, neighbor(row, col, 0).1));
        } else if row == -5 {
            assert(!in_diamond(neighbor(row, col, 3).0, neighbor(row, col, 3).1));
        } else if col == 5 {
            assert(!in_diamond(neighbor(row, col, 2).0, neighbor(row, col, 2).1));
        } else if col == -5 {
            assert(!in_diamond(neighbor(row, col, 5).0, neighbor(row, col, 5).1));
        } else if row - col == 5 {
            assert(!in_diamond(neighbor(row, col, 0).0, neighbor(row, col, 0).1));
        } else {
            assert(!in_diamond(neighbor(row, col, 2).0, neighbor(row, col, 2).1));
        }
    }
}

/// The center of the board has all six neighbors on the board.
pub proof fn lemma_center_neighbors(k: int)
    requires
        0 <= k < 6,
    ensures
        in_diamond(neighbor(0, 0, k).0, neighbor(0, 0, k).1),
{
}

/// A position on the board as an index.
///
/// Starts at 0 in the top right corner, moving right and then down, ending
/// at 90.
#[derive(Clone, Copy, Debug, PartialEq, Eq, PartialOrd, Ord, Hash, Structural)]
pub struct SigIndex(i8);

impl View for SigIndex {
    type V = int;

    closed spec fn view(&self) -> int {
        self.0 as int
    }
}

impl SigIndex {
    /// Every index names one of the 91 cells.
    #[verifier::type_invariant]
    pub open spec fn wf(self) -> bool {
        0 <= self@ < 91
    }

    /// The index with the given number, if it names a cell.
    pub fn new(index: i8) -> (r: Option<SigIndex>)
        ensures
            r is Some <==> 0 <= index < 91,
            r matches Some(i) ==> i@ == index && i.wf(),
    {
        if 0 <= index && index < 91 {
            Some(SigIndex(index))
        } else {
            None
        }
    }

    /// All indices, in canonical order.
    pub fn all() -> (r: Vec<SigIndex>)
        ensures
            r.len() == 91,
            forall|i: int| 0 <= i < 91 ==> (#[trigger] r[i])@ == i && r[i].wf(),
    {
        let mut indices: Vec<SigIndex> = Vec::new();
        let mut next: i8 = 0;
        while next < 91
            invariant
                0 <= next <= 91,
                indices.len() == next,
                forall|i: int| 0 <= i < next ==> (#[trigger] indices[i])@ == i && indices[i].wf(),
            decreases 91 - next,
        {
            indices.push(SigIndex(next));
            next = next + 1;
        }
        indices
    }

    /// The index as a position in a table of cells.
    pub fn to_usize(self) -> (r: usize)
        ensures
            r == self@,
            r < 91,
    {
        proof {
            use_type_invariant(&self);
        }
        self.0 as usize
    }
}

/// The numbers of a sequence of indices.
pub open spec fn index_views(indices: Seq<SigIndex>) -> Seq<int> {
    indices.map_values(|index: SigIndex| index@)
}

/// A position on the board as row and column.
///
/// - The center of the playing field is at (0, 0).
/// - Rows go from -5 (top) to 5 (bottom).
/// - Columns are skewed, so that the top center (0, -5) is the top right
///   corner.
#[derive(Clone, Copy, Debug, PartialEq, Eq, PartialOrd, Ord, Hash, Structural)]
pub struct SigCoord {
    row: i8,
    col: i8,
}

impl View for SigCoord {
    type V = (int, int);

    closed spec fn view(&self) -> (int, int) {
        (self.row as int, self.col as int)
    }
}

impl SigCoord {
    /// Every coordinate names a cell of the board.
    #[verifier::type_invariant]
    pub open spec fn wf(self) -> bool {
        in_diamond(self@.0, self@.1)
    }

    /// The coordinate `(row, col)`, if it lies on the board.
    pub fn new(row: i8, col: i8) -> (r: Option<SigCoord>)
        ensures
            r is Some <==> in_diamond(row as int, col as int),
            r matches Some(c) ==> c@ == (row as int, col as int) && c.wf(),
    {
        if -5 <= row && row <= 5 && -5 <= col && col <= 5 && -5 <= row - col && row - col <= 5 {
            Some(SigCoord { row, col })
        } else {
            None
        }
    }

    /// The row, from -5 (top) to 5 (bottom).
    pub fn row(self) -> (r: i8)
        ensures
            r == self@.0,
            -5 <= r <= 5,
    {
        proof {
            use_type_invariant(&self);
        }
        self.row
    }

    /// The column, from -5 to 5.
    pub fn col(self) -> (r: i8)
        ensures
            r == self@.1,
            -5 <= r <= 5,
    {
        proof {
            use_type_invariant(&self);
        }
        self.col
    }

    /// All adjacent coordinates in clockwise order, starting at the right.
    ///
    /// A slot whose position lies outside the playing field holds `None`.
    pub fn adjacent_cw(self) -> (r: [Option<SigCoord>; 6])
        ensures
            forall|k: int|
                0 <= k < 6 ==> match #[trigger] r[k] {
                    Some(c) => c@ == neighbor(self@.0, self@.1, k) && c.wf(),
                    None => !in_diamond(
                        neighbor(self@.0, self@.1, k).0,
                        neighbor(self@.0, self@.1, k).1,
                    ),
                },
    {
        proof {
            use_type_invariant(&self);
        }
        let row: i8 = self.row;
        let col: i8 = self.col;
        [
            Self::new(row + 1, col),
            Self::new(row + 1, col + 1),
            Self::new(row, col + 1),
            Self::new(row - 1, col),
            Self::new(row - 1, col - 1),
            Self::new(row, col - 1),
        ]
    }
}

/// The index of column 0 of a row of the board.
pub fn row_index_offset(row: i8) -> (r: i8)
    requires
        -5 <= row <= 5,
    ensures
        r == row_offset(row as int),
{
    proof {
        lemma_row_offsets();
    }
    let magnitude: i8 = if row < 0 {
        -row
    } else {
        row
    };
    let triangle: i8 = magnitude * (magnitude + 1) / 2;
    if row < 0 {
        45 + row * 11 + triangle
    } else {
        45 + row * 11 - triangle
    }
}

/// The index that the coordinate `coord` names.
pub closed spec fn index_from_coord(coord: SigCoord) -> SigIndex {
    SigIndex(index_of(coord.row as int, coord.col as int) as i8)
}

/// The coordinate that the index `index` names.
pub closed spec fn coord_from_index(index: SigIndex) -> SigCoord {
    SigCoord { row: coord_of(index.0 as int).0 as i8, col: coord_of(index.0 as int).1 as i8 }
}

/// The conversions between the two types act on the views as `index_of` and
/// `coord_of` do.
pub proof fn lemma_conversion_views(index: SigIndex, coord: SigCoord)
    ensures
        index.wf() ==> coord_from_index(index)@ == coord_of(index@) && coord_from_index(
            index,
        ).wf(),
        coord.wf() ==> index_from_coord(coord)@ == index_of(coord@.0, coord@.1)
            && index_from_coord(coord).wf(),
{
    if index.wf() {
        lemma_index_round_trip(index@);
    }
    if coord.wf() {
        lemma_coord_round_trip(coord@.0, coord@.1);
    }
}

impl FromSpecImpl<SigCoord> for SigIndex {
    open spec fn obeys_from_spec() -> bool {
        true
    }

    open spec fn from_spec(coord: SigCoord) -> SigIndex {
        index_from_coord(coord)
    }
}

impl From<SigCoord> for SigIndex {
    /// The index of the cell that `coord` names.
    fn from(coord: SigCoord) -> (index: SigIndex)
        ensures
            index@ == index_of(coord@.0, coord@.1),
    {
        proof {
            use_type_invariant(&coord);
            lemma_coord_round_trip(coord@.0, coord@.1);
        }
        SigIndex(coord.col + row_index_offset(coord.row))
    }
}

impl FromSpecImpl<SigIndex> for SigCoord {
    open spec fn obeys_from_spec() -> bool {
        true
    }

    open spec fn from_spec(index: SigIndex) -> SigCoord {
        coord_from_index(index)
    }
}

impl From<SigIndex> for SigCoord {
    /// The coordinate of the cell that `index` names.
    fn from(index: SigIndex) -> (coord: SigCoord)
        ensures
            coord@ == coord_of(index@),
    {
        proof {
            use_type_invariant(&index);
            lemma_index_round_trip(index@);
            lemma_row_offsets();
        }
        let symmetrical: i8 = index.0 - 45;
        let distance: i8 = if symmetrical < 0 {
            -symmetrical
        } else {
            symmetrical
        };
        let magnitude: i8 = if distance >= 40 {
            5
        } else if distance >= 33 {
            4
        } else if distance >= 25 {
            3
        } else if distance >= 16 {
            2
        } else if distance >= 6 {
            1
        } else {
            0
        };
        let row: i8 = if symmetrical < 0 {
            -magnitude
        } else {
            magnitude
        };
        SigCoord { row, col: index.0 - row_index_offset(row) }
    }
}

} // verus!
