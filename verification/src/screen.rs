//! Where the cells of the board lie on the screen.

use vstd::prelude::*;
use crate::index::SigCoord;

verus! {

/// The horizontal position of the center of the cell `(row, col)`, in
/// pixels: each column lies a tile's width to the right of the one before,
/// and each row is shifted by half a tile's width to the left.
pub open spec fn screen_x(row: int, col: int) -> int {
    1216 + col * 66 - row * 33
}

/// The vertical position of the center of a cell in row `row`, in pixels.
pub open spec fn screen_y(row: int) -> int {
    504 + row * 57
}

/// The position on the screen of the center of the cell at `coord`.
pub fn coord_to_screen(coord: SigCoord) -> (position: (u32, u32))
    ensures
        position.0 == screen_x(coord@.0, coord@.1),
        position.1 == screen_y(coord@.0),
{
    let center_x: i32 = 1216;
    let center_y: i32 = 504;
    let tile_width: i32 = 66;
    let tile_height: i32 = 57;
    let row: i32 = coord.row() as i32;
    let col: i32 = coord.col() as i32;
    (
        (center_x + col * tile_width - row * tile_width / 2) as u32,
        (center_y + row * tile_height) as u32,
    )
}

} // verus!
