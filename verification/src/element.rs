//! The catalogue of tile types and their encoding as cell codes.

use vstd::prelude::*;

verus! {

/// A tile type. The declaration order is the canonical order: it fixes the
/// cell codes 1 to 14 and the priority among the five metals.
#[derive(Clone, Copy, Debug, PartialEq, Eq, PartialOrd, Ord, Hash, Structural)]
pub enum Element {
    Salt,
    Air,
    Fire,
    Water,
    Earth,
    Vitae,
    Mors,
    Quicksilver,
    Lead,
    Tin,
    Iron,
    Copper,
    Silver,
    Gold,
}

/// What one board cell holds: a tile, or nothing.
pub type Cell = Option<Element>;

impl Element {
    /// The code of a tile type: its position in the canonical order, from 1.
    pub open spec fn code(self) -> int {
        match self {
            Element::Salt => 1,
            Element::Air => 2,
            Element::Fire => 3,
            Element::Water => 4,
            Element::Earth => 5,
            Element::Vitae => 6,
            Element::Mors => 7,
            Element::Quicksilver => 8,
            Element::Lead => 9,
            Element::Tin => 10,
            Element::Iron => 11,
            Element::Copper => 12,
            Element::Silver => 13,
            Element::Gold => 14,
        }
    }

    /// The code of a cell: 0 for an empty cell, else the code of its tile.
    pub open spec fn cell_code(cell: Cell) -> int {
        match cell {
            Some(element) => element.code(),
            None => 0,
        }
    }

    /// The cell that a code stands for. Codes outside 0..=14 stand for nothing
    /// and are read as the empty cell here.
    pub open spec fn cell_of_code(code: int) -> Cell {
        if code == 1 {
            Some(Element::Salt)
        } else if code == 2 {
            Some(Element::Air)
        } else if code == 3 {
            Some(Element::Fire)
        } else if code == 4 {
            Some(Element::Water)
        } else if code == 5 {
            Some(Element::Earth)
        } else if code == 6 {
            Some(Element::Vitae)
        } else if code == 7 {
            Some(Element::Mors)
        } else if code == 8 {
            Some(Element::Quicksilver)
        } else if code == 9 {
            Some(Element::Lead)
        } else if code == 10 {
            Some(Element::Tin)
        } else if code == 11 {
            Some(Element::Iron)
        } else if code == 12 {
            Some(Element::Copper)
        } else if code == 13 {
            Some(Element::Silver)
        } else if code == 14 {
            Some(Element::Gold)
        } else {
            None
        }
    }

    /// One of the four basic elements, each of which pairs with itself and
    /// with Salt.
    pub open spec fn is_basic(self) -> bool {
        self == Element::Air || self == Element::Fire || self == Element::Water || self
            == Element::Earth
    }

    /// One of the five metals that Quicksilver consumes, in priority order.
    pub open spec fn is_metal(self) -> bool {
        9 <= self.code() <= 13
    }

    /// Encodes a cell as its code.
    pub fn to_index(element: Option<Element>) -> (index: u8)
        ensures
            index == Self::cell_code(element),
            index <= 14,
    {
        match element {
            Some(Element::Salt) => 1,
            Some(Element::Air) => 2,
            Some(Element::Fire) => 3,
            Some(Element::Water) => 4,
            Some(Element::Earth) => 5,
            Some(Element::Vitae) => 6,
            Some(Element::Mors) => 7,
            Some(Element::Quicksilver) => 8,
            Some(Element::Lead) => 9,
            Some(Element::Tin) => 10,
            Some(Element::Iron) => 11,
            Some(Element::Copper) => 12,
            Some(Element::Silver) => 13,
            Some(Element::Gold) => 14,
            None => 0,
        }
    }

    /// Decodes a cell code. A code above 14 stands for no cell and is not
    /// accepted.
    pub fn from_index(index: u8) -> (element: Option<Element>)
        requires
            index <= 14,
        ensures
            element == Self::cell_of_code(index as int),
            Self::cell_code(element) == index,
    {
        match index {
            0 => None,
            1 => Some(Element::Salt),
            2 => Some(Element::Air),
            3 => Some(Element::Fire),
            4 => Some(Element::Water),
            5 => Some(Element::Earth),
            6 => Some(Element::Vitae),
            7 => Some(Element::Mors),
            8 => Some(Element::Quicksilver),
            9 => Some(Element::Lead),
            10 => Some(Element::Tin),
            11 => Some(Element::Iron),
            12 => Some(Element::Copper),
            13 => Some(Element::Silver),
            _ => Some(Element::Gold),
        }
    }
}

/// Encoding and decoding are mutual inverses: every cell has a code in
/// 0..=14 from which it is recovered, and every such code is the code of the
/// cell it decodes to.
pub proof fn lemma_cell_code_round_trip(cell: Cell, code: int)
    ensures
        0 <= Element::cell_code(cell) <= 14,
        Element::cell_of_code(Element::cell_code(cell)) == cell,
        0 <= code <= 14 ==> Element::cell_code(Element::cell_of_code(code)) == code,
{
}

} // verus!
