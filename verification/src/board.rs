//! The board: 91 cells, packed two to a byte.

use vstd::prelude::*;
use crate::element::{Cell, Element};
use crate::index::{index_of, index_views, SigCoord, SigIndex};
use crate::combinations::{
    cross, index_pairs, lemma_ordered_pairs_views, ordered_pairs, pair_of, pair_views, pairs_from,
};
use crate::rules::{
    basic_moves, count_below, count_of, free_at, free_basics, free_below, free_of, free_tile,
    free_tiles, holding, is_first, lemma_first_unique, lemma_valid_moves_len, life_moves,
    lowest_metal, metal_moves, present, salt_moves, slot_open, valid_composition, valid_moves,
    window_open, MAX_MOVES,
};

verus! {

/// Whether no cell of `cells` holds a tile.
pub open spec fn all_empty(cells: Seq<Cell>) -> bool {
    forall|i: int| 0 <= i < cells.len() ==> cells[i] is None
}

/// The board without any tile.
pub open spec fn empty_cells() -> Seq<Cell> {
    Seq::new(91, |i: int| None)
}

/// The code stored for cell `i`: the high half of its byte for an even
/// index, the low half for an odd one.
spec fn code_at(bits: Seq<u8>, i: int) -> u8 {
    if i % 2 == 0 {
        bits[i / 2] >> 4
    } else {
        bits[i / 2] & 0xF
    }
}

proof fn lemma_halves(byte: u8, code: u8)
    by (bit_vector)
    requires
        code <= 14,
    ensures
        ((byte & 0x0F) | (code << 4)) >> 4 == code,
        ((byte & 0x0F) | (code << 4)) & 0xF == byte & 0xF,
        ((byte & 0xF0) | code) >> 4 == byte >> 4,
        ((byte & 0xF0) | code) & 0xF == code,
        (byte == 0) == (byte >> 4 == 0 && byte & 0xF == 0),
        byte >> 4 <= 15,
        byte & 0xF <= 15,
{
}

/// The state of the playing field: what each of the 91 cells holds.
///
/// A board is a plain value: cheap to copy and compared cell by cell.
#[derive(Clone, Copy, Debug, PartialEq, Eq)]
pub struct Board {
    bits: [u8; 46],
}

impl View for Board {
    type V = Seq<Cell>;

    /// The cells by index: a sequence of length 91.
    closed spec fn view(&self) -> Seq<Cell> {
        Seq::new(91, |i: int| Element::cell_of_code(code_at(self.bits@, i) as int))
    }
}

impl Board {
    /// Every stored code is the code of a cell, and the half byte behind the
    /// last cell is never written.
    #[verifier::type_invariant]
    closed spec fn wf(self) -> bool {
        &&& forall|i: int| 0 <= i < 91 ==> #[trigger] code_at(self.bits@, i) <= 14
        &&& code_at(self.bits@, 91) == 0
    }

    /// A board has exactly 91 cells.
    pub proof fn lemma_cell_count(self)
        ensures
            self@.len() == 91,
    {
    }

    /// The board without any tile.
    pub fn new() -> (board: Board)
        ensures
            board@ == empty_cells(),
    {
        let bits: [u8; 46] = [0; 46];
        proof {
            assert forall|i: int| 0 <= i < 92 implies #[trigger] code_at(bits@, i) == 0 by {
                lemma_halves(0, 0);
            }
            assert(Seq::new(91, |i: int| Element::cell_of_code(code_at(bits@, i) as int))
                =~= empty_cells());
        }
        Board { bits }
    }

    /// What the cell at `index` holds.
    pub fn get(self, index: SigIndex) -> (cell: Option<Element>)
        ensures
            cell == self@[index@],
    {
        let i: usize = index.to_usize();
        let byte: u8 = self.bits[i / 2];
        proof {
            use_type_invariant(&self);
            assert(code_at(self.bits@, i as int) <= 14);
        }
        Element::from_index(
            if i % 2 == 0 {
                byte >> 4
            } else {
                byte & 0xF
            },
        )
    }

    /// Puts `element` into the cell at `index`; every other cell stays as it
    /// is.
    pub fn set(&mut self, index: SigIndex, element: Option<Element>)
        ensures
            final(self)@ == old(self)@.update(index@, element),
    {
        let i: usize = index.to_usize();
        let code: u8 = Element::to_index(element);
        let byte: u8 = self.bits[i / 2];
        let ghost before = self.bits@;
        proof {
            use_type_invariant(&*self);
            lemma_halves(byte, code);
        }
        let updated: u8 = if i % 2 == 0 {
            byte & 0x0F | code << 4
        } else {
            byte & 0xF0 | code
        };
        let mut bits: [u8; 46] = self.bits;
        bits[i / 2] = updated;
        proof {
            assert forall|j: int| 0 <= j < 92 implies #[trigger] code_at(bits@, j) == (if j
                == i {
                code
            } else {
                code_at(before, j)
            }) by {
                if j / 2 == i / 2 {
                } else {
                }
            }
            crate::element::lemma_cell_code_round_trip(element, 0);
            assert(Seq::new(91, |j: int| Element::cell_of_code(code_at(bits@, j) as int))
                =~= Seq::new(91, |j: int| Element::cell_of_code(code_at(before, j) as int)).update(
                i as int,
                element,
            ));
        }
        self.bits = bits;
    }

    /// Whether nothing stands in a neighbor slot: the slot lies off the board
    /// or its cell is empty.
    fn unblocked(self, slot: Option<SigCoord>) -> (open: bool)
        ensures
            open == match slot {
                Some(coord) => self@[index_of(coord@.0, coord@.1)] is None,
                None => true,
            },
    {
        match slot {
            Some(coord) => self.get(SigIndex::from(coord)).is_none(),
            None => true,
        }
    }

    /// Whether the cell at `coord` has open space to three consecutive
    /// sides, so that a tile there may be removed.
    pub fn is_free(self, coord: SigCoord) -> (free: bool)
        ensures
            free == free_at(self@, coord@.0, coord@.1),
    {
        let adjacent: [Option<SigCoord>; 6] = coord.adjacent_cw();
        let open0: bool = self.unblocked(adjacent[0]);
        let open1: bool = self.unblocked(adjacent[1]);
        let open2: bool = self.unblocked(adjacent[2]);
        let open3: bool = self.unblocked(adjacent[3]);
        let open4: bool = self.unblocked(adjacent[4]);
        let open5: bool = self.unblocked(adjacent[5]);
        proof {
            let row = coord@.0;
            let col = coord@.1;
            assert(open0 == slot_open(self@, row, col, 0));
            assert(open1 == slot_open(self@, row, col, 1));
            assert(open2 == slot_open(self@, row, col, 2));
            assert(open3 == slot_open(self@, row, col, 3));
            assert(open4 == slot_open(self@, row, col, 4));
            assert(open5 == slot_open(self@, row, col, 5));
            assert(window_open(self@, row, col, 0) == (open0 && open1 && open2));
            assert(window_open(self@, row, col, 1) == (open1 && open2 && open3));
            assert(window_open(self@, row, col, 2) == (open2 && open3 && open4));
            assert(window_open(self@, row, col, 3) == (open3 && open4 && open5));
            assert(window_open(self@, row, col, 4) == (open4 && open5 && open0));
            assert(window_open(self@, row, col, 5) == (open5 && open0 && open1));
        }
        (open0 && open1 && open2) || (open1 && open2 && open3) || (open2 && open3 && open4)
            || (open3 && open4 && open5) || (open4 && open5 && open0) || (open5 && open0 && open1)
    }

    /// All occupied cells whose tile is free, in canonical order. The list
    /// reflects the board as it is now.
    pub fn free_elements(self) -> (free: Vec<SigIndex>)
        ensures
            index_views(free@) == free_tiles(self@),
    {
        let all: Vec<SigIndex> = SigIndex::all();
        let mut free: Vec<SigIndex> = Vec::new();
        let mut at: usize = 0;
        while at < 91
            invariant
                0 <= at <= 91,
                all.len() == 91,
                forall|i: int| 0 <= i < 91 ==> (#[trigger] all[i])@ == i,
                index_views(free@) == free_below(self@, at as int),
            decreases 91 - at,
        {
            let index: SigIndex = all[at];
            let occupied: bool = self.get(index).is_some();
            if occupied && self.is_free(SigCoord::from(index)) {
                proof {
                    assert(free_tile(self@, at as int));
                    assert(index_views(free@.push(index)) == index_views(free@).push(index@));
                }
                free.push(index);
            } else {
                proof {
                    assert(!free_tile(self@, at as int));
                }
            }
            at = at + 1;
        }
        free
    }

    /// Whether the cell at `index` holds a tile of type `element`.
    fn holds(self, index: SigIndex, element: Element) -> (found: bool)
        ensures
            found == (self@[index@] == Some(element)),
    {
        match self.get(index) {
            Some(tile) => tile == element,
            None => false,
        }
    }

    /// Those of `indices` whose cell holds a tile of type `element`.
    fn select(self, indices: &Vec<SigIndex>, element: Element) -> (found: Vec<SigIndex>)
        ensures
            index_views(found@) == holding(self@, element, index_views(indices@)),
    {
        let mut found: Vec<SigIndex> = Vec::new();
        let mut at: usize = 0;
        let ghost all = index_views(indices@);
        while at < indices.len()
            invariant
                0 <= at <= indices.len(),
                all == index_views(indices@),
                index_views(found@) == holding(self@, element, all.take(at as int)),
            decreases indices.len() - at,
        {
            let index: SigIndex = indices[at];
            proof {
                assert(all.take(at + 1).drop_last() =~= all.take(at as int));
                assert(all.take(at + 1).last() == index@);
            }
            if self.holds(index, element) {
                proof {
                    assert(index_views(found@.push(index)) =~= index_views(found@).push(index@));
                }
                found.push(index);
            }
            at = at + 1;
        }
        proof {
            assert(all.take(at as int) =~= all);
        }
        found
    }

    /// The free tiles of type `element`, in canonical order.
    fn free_holding(self, element: Element) -> (found: Vec<SigIndex>)
        ensures
            index_views(found@) == free_of(self@, element),
    {
        let free: Vec<SigIndex> = self.free_elements();
        self.select(&free, element)
    }

    /// The first cell, in canonical order, that holds a tile of type
    /// `element`, free or not.
    fn find(self, element: Element) -> (found: Option<SigIndex>)
        ensures
            match found {
                Some(index) => is_first(self@, element, index@),
                None => !present(self@, element),
            },
    {
        let all: Vec<SigIndex> = SigIndex::all();
        let mut at: usize = 0;
        while at < 91
            invariant
                0 <= at <= 91,
                all.len() == 91,
                forall|i: int| 0 <= i < 91 ==> (#[trigger] all[i])@ == i,
                forall|j: int| 0 <= j < at ==> #[trigger] self@[j] != Some(element),
            decreases 91 - at,
        {
            if self.holds(all[at], element) {
                return Some(all[at]);
            }
            at = at + 1;
        }
        None
    }

    /// The tile of the metal that is next in line, free or not: the first
    /// tile of the first of Lead, Tin, Iron, Copper and Silver that is left.
    fn next_metal(self) -> (found: Option<SigIndex>)
        ensures
            match found {
                Some(index) => lowest_metal(self@) matches Some(metal) && is_first(
                    self@,
                    metal,
                    index@,
                ),
                None => lowest_metal(self@) is None,
            },
    {
        if let Some(index) = self.find(Element::Lead) {
            proof {
                lemma_first_unique(self@, Element::Lead, index@);
            }
            return Some(index);
        }
        if let Some(index) = self.find(Element::Tin) {
            proof {
                lemma_first_unique(self@, Element::Tin, index@);
            }
            return Some(index);
        }
        if let Some(index) = self.find(Element::Iron) {
            proof {
                lemma_first_unique(self@, Element::Iron, index@);
            }
            return Some(index);
        }
        if let Some(index) = self.find(Element::Copper) {
            proof {
                lemma_first_unique(self@, Element::Copper, index@);
            }
            return Some(index);
        }
        if let Some(index) = self.find(Element::Silver) {
            proof {
                lemma_first_unique(self@, Element::Silver, index@);
            }
            return Some(index);
        }
        None
    }

    /// Whether the board holds exactly the tiles that a game starts with:
    /// the count of every type is the canonical one.
    pub fn is_valid_initial_state(self) -> (valid: bool)
        ensures
            valid == valid_composition(self@),
    {
        let all: Vec<SigIndex> = SigIndex::all();
        let mut counts: [u8; 14] = [0; 14];
        let mut at: usize = 0;
        while at < 91
            invariant
                0 <= at <= 91,
                all.len() == 91,
                forall|i: int| 0 <= i < 91 ==> (#[trigger] all[i])@ == i,
                forall|element: Element|
                    counts[element.code() - 1] == #[trigger] count_below(self@, element, at as int),
                forall|element: Element| #[trigger] count_below(self@, element, at as int) <= at,
            decreases 91 - at,
        {
            let cell: Option<Element> = self.get(all[at]);
            let code: u8 = Element::to_index(cell);
            let ghost before = counts;
            if code != 0 {
                let slot: usize = (code - 1) as usize;
                proof {
                    assert(before[slot as int] == count_below(self@, cell->Some_0, at as int));
                }
                let count: u8 = counts[slot];
                counts[slot] = count + 1;
            }
            proof {
                assert forall|element: Element|
                    counts[element.code() - 1] == #[trigger] count_below(
                        self@,
                        element,
                        at + 1,
                    ) && count_below(self@, element, at + 1) <= at + 1 by {
                    assert(before[element.code() - 1] == count_below(self@, element, at as int));
                }
            }
            at = at + 1;
        }
        proof {
            assert(counts[0] == count_of(self@, Element::Salt));
            assert(counts[1] == count_of(self@, Element::Air));
            assert(counts[2] == count_of(self@, Element::Fire));
            assert(counts[3] == count_of(self@, Element::Water));
            assert(counts[4] == count_of(self@, Element::Earth));
            assert(counts[5] == count_of(self@, Element::Vitae));
            assert(counts[6] == count_of(self@, Element::Mors));
            assert(counts[7] == count_of(self@, Element::Quicksilver));
            assert(counts[8] == count_of(self@, Element::Lead));
            assert(counts[9] == count_of(self@, Element::Tin));
            assert(counts[10] == count_of(self@, Element::Iron));
            assert(counts[11] == count_of(self@, Element::Copper));
            assert(counts[12] == count_of(self@, Element::Silver));
            assert(counts[13] == count_of(self@, Element::Gold));
        }
        counts[0] == 4 && counts[1] == 8 && counts[2] == 8 && counts[3] == 8 && counts[4] == 8
            && counts[5] == 4 && counts[6] == 4 && counts[7] == 5 && counts[8] == 1 && counts[9]
            == 1 && counts[10] == 1 && counts[11] == 1 && counts[12] == 1 && counts[13] == 1
    }

    /// Every pair of two free tiles of type `element`, the tile with the
    /// lower index first, ordered by the first tile and then by the second.
    pub fn self_combinations(self, element: Element) -> (steps: Vec<Step>)
        ensures
            step_views(steps@) == ordered_pairs(free_of(self@, element)),
    {
        let tiles: Vec<SigIndex> = self.free_holding(element);
        let pairs: Vec<(SigIndex, SigIndex)> = index_pairs(&tiles);
        proof {
            lemma_ordered_pairs_views(tiles@);
        }
        let mut steps: Vec<Step> = Vec::new();
        let mut at: usize = 0;
        while at < pairs.len()
            invariant
                0 <= at <= pairs.len(),
                step_views(steps@) == pair_views(pairs@).take(at as int),
            decreases pairs.len() - at,
        {
            let pair: (SigIndex, SigIndex) = pairs[at];
            let step: Step = Step([pair.0, pair.1]);
            proof {
                assert(step@ == (pair.0@, pair.1@));
                assert(step_views(steps@.push(step)) =~= step_views(steps@).push(step@));
                assert(pair_views(pairs@).take(at + 1) =~= pair_views(pairs@).take(
                    at as int,
                ).push(step@));
            }
            steps.push(step);
            at = at + 1;
        }
        proof {
            assert(pair_views(pairs@).take(at as int) =~= pair_views(pairs@));
        }
        steps
    }

    /// All moves that can be made in the current state: every legal move
    /// once.
    ///
    /// The moves are sorted by likelihood of not leading to a rollback, with
    /// the most likely last, so that popping off the end of the list is more
    /// efficient.
    pub fn valid_steps(self) -> (steps: Vec<Step>)
        ensures
            step_views(steps@) == valid_moves(self@),
            steps.len() <= MAX_MOVES,
    {
        let salts: Vec<SigIndex> = self.free_holding(Element::Salt);
        let mut basics: Vec<SigIndex> = self.free_holding(Element::Air);
        let mut fires: Vec<SigIndex> = self.free_holding(Element::Fire);
        let mut waters: Vec<SigIndex> = self.free_holding(Element::Water);
        let mut earths: Vec<SigIndex> = self.free_holding(Element::Earth);
        basics.append(&mut fires);
        basics.append(&mut waters);
        basics.append(&mut earths);
        proof {
            assert(index_views(basics@) =~= free_basics(self@));
        }

        let mut steps: Vec<Step> = self.self_combinations(Element::Salt);
        push_cross(&mut steps, &salts, &basics, true);
        proof {
            assert(step_views(steps@) =~= salt_moves(self@));
        }

        let mut air_pairs: Vec<Step> = self.self_combinations(Element::Air);
        let mut fire_pairs: Vec<Step> = self.self_combinations(Element::Fire);
        let mut water_pairs: Vec<Step> = self.self_combinations(Element::Water);
        let mut earth_pairs: Vec<Step> = self.self_combinations(Element::Earth);
        steps.append(&mut air_pairs);
        steps.append(&mut fire_pairs);
        steps.append(&mut water_pairs);
        steps.append(&mut earth_pairs);
        proof {
            assert(step_views(steps@) =~= salt_moves(self@) + basic_moves(self@));
        }

        let mors: Vec<SigIndex> = self.free_holding(Element::Mors);
        let vitae: Vec<SigIndex> = self.free_holding(Element::Vitae);
        push_cross(&mut steps, &mors, &vitae, false);
        proof {
            assert(step_views(steps@) =~= salt_moves(self@) + basic_moves(self@) + life_moves(
                self@,
            ));
        }

        let ghost before = step_views(steps@);
        match self.next_metal() {
            Some(metal) => {
                proof {
                    let kind = lowest_metal(self@)->Some_0;
                    lemma_first_unique(self@, kind, metal@);
                }
                if self.is_free(SigCoord::from(metal)) {
                    let quicksilver: Vec<SigIndex> = self.free_holding(Element::Quicksilver);
                    push_row(&mut steps, metal, &quicksilver, false);
                    proof {
                        assert(step_views(steps@) =~= before + pairs_from(
                            metal@,
                            free_of(self@, Element::Quicksilver),
                        ));
                    }
                }
            },
            None => {
                let gold: Vec<SigIndex> = self.free_holding(Element::Gold);
                if gold.len() > 0 {
                    let step: Step = Step([gold[0], gold[0]]);
                    proof {
                        assert(step_views(steps@.push(step)) =~= before + seq![
                            (free_of(self@, Element::Gold)[0], free_of(self@, Element::Gold)[0]),
                        ]);
                    }
                    steps.push(step);
                }
            },
        }
        proof {
            assert(step_views(steps@) =~= before + metal_moves(self@));
            lemma_valid_moves_len(self@);
            assert(step_views(steps@).len() == steps@.len());
        }
        steps
    }

    /// Whether the two boards hold the same tiles in the same cells.
    pub fn same_cells(self, other: Board) -> (same: bool)
        ensures
            same == (self@ == other@),
    {
        let all: Vec<SigIndex> = SigIndex::all();
        let mut at: usize = 0;
        while at < 91
            invariant
                0 <= at <= 91,
                all.len() == 91,
                forall|i: int| 0 <= i < 91 ==> (#[trigger] all[i])@ == i,
                forall|i: int| 0 <= i < at ==> self@[i] == other@[i],
            decreases 91 - at,
        {
            let mine: u8 = Element::to_index(self.get(all[at]));
            let theirs: u8 = Element::to_index(other.get(all[at]));
            if mine != theirs {
                return false;
            }
            proof {
                crate::element::lemma_cell_code_round_trip(self@[at as int], 0);
                crate::element::lemma_cell_code_round_trip(other@[at as int], 0);
            }
            at = at + 1;
        }
        proof {
            assert(self@ =~= other@);
        }
        true
    }

    /// Whether the board holds no tile at all.
    pub fn is_solved(self) -> (solved: bool)
        ensures
            solved == all_empty(self@),
    {
        proof {
            use_type_invariant(&self);
        }
        let mut at: usize = 0;
        while at < 46
            invariant
                0 <= at <= 46,
                self.wf(),
                forall|i: int| 0 <= i < 2 * at && i < 91 ==> (#[trigger] self@[i]) is None,
            decreases 46 - at,
        {
            let byte: u8 = self.bits[at];
            proof {
                lemma_halves(byte, 0);
                assert(code_at(self.bits@, 2 * at as int) == byte >> 4);
                assert(code_at(self.bits@, 2 * at + 1) == byte & 0xF);
            }
            if byte != 0 {
                proof {
                    if byte >> 4 != 0 {
                        assert(code_at(self.bits@, 2 * at as int) <= 14);
                        assert(self@[2 * at as int] is Some);
                    } else {
                        assert(at < 45);
                        assert(code_at(self.bits@, 2 * at + 1) <= 14);
                        assert(self@[2 * at + 1] is Some);
                    }
                }
                return false;
            }
            proof {
                assert forall|i: int| 0 <= i < 2 * (at + 1) && i < 91 implies (
                #[trigger] self@[i]) is None by {
                    if i == 2 * at {
                    } else if i == 2 * at + 1 {
                    }
                }
            }
            at = at + 1;
        }
        true
    }
}

/// A move: the two cells to clear. Both are the same cell where a tile is
/// removed alone. A step names cells only; which tiles leave depends on the
/// board that it is applied to.
#[derive(Clone, Copy, Debug, PartialEq, Eq)]
pub struct Step(pub [SigIndex; 2]);

impl View for Step {
    type V = (int, int);

    /// The numbers of the two cells.
    open spec fn view(&self) -> (int, int) {
        (self.0[0]@, self.0[1]@)
    }
}

/// The moves that a sequence of steps stands for.
pub open spec fn step_views(steps: Seq<Step>) -> Seq<(int, int)> {
    steps.map_values(|step: Step| step@)
}

/// Appends to `steps` the moves of `anchor` with each of `others`, in the
/// order of `others`: the other cell first where `flipped` is set.
fn push_row(steps: &mut Vec<Step>, anchor: SigIndex, others: &Vec<SigIndex>, flipped: bool)
    ensures
        step_views(final(steps)@) == step_views(old(steps)@) + Seq::new(
            others@.len(),
            |j: int| pair_of(anchor@, index_views(others@)[j], flipped),
        ),
{
    let ghost before = step_views(steps@);
    let ghost views = index_views(others@);
    let mut at: usize = 0;
    while at < others.len()
        invariant
            0 <= at <= others.len(),
            views == index_views(others@),
            step_views(steps@) == before + Seq::new(
                at as nat,
                |j: int| pair_of(anchor@, views[j], flipped),
            ),
        decreases others.len() - at,
    {
        let other: SigIndex = others[at];
        let step: Step = if flipped {
            Step([other, anchor])
        } else {
            Step([anchor, other])
        };
        proof {
            assert(step@ == pair_of(anchor@, views[at as int], flipped));
            assert(step_views(steps@.push(step)) =~= step_views(steps@).push(step@));
            assert(step_views(steps@).push(step@) =~= before + Seq::new(
                (at + 1) as nat,
                |j: int| pair_of(anchor@, views[j], flipped),
            ));
        }
        steps.push(step);
        at = at + 1;
    }
}

/// Appends to `steps` the moves of each of `outer` with each of `inner`,
/// ordered by the position in `outer` and then by the position in `inner`.
fn push_cross(steps: &mut Vec<Step>, outer: &Vec<SigIndex>, inner: &Vec<SigIndex>, flipped: bool)
    ensures
        step_views(final(steps)@) == step_views(old(steps)@) + cross(
            index_views(outer@),
            index_views(inner@),
            flipped,
        ),
{
    let ghost before = step_views(steps@);
    let ghost rows = index_views(outer@);
    let ghost columns = index_views(inner@);
    let mut at: usize = 0;
    while at < outer.len()
        invariant
            0 <= at <= outer.len(),
            rows == index_views(outer@),
            columns == index_views(inner@),
            step_views(steps@) == before + cross(rows.take(at as int), columns, flipped),
        decreases outer.len() - at,
    {
        proof {
            assert(rows.take(at + 1).drop_last() =~= rows.take(at as int));
            assert(rows.take(at + 1).last() == outer[at as int]@);
        }
        push_row(steps, outer[at], inner, flipped);
        proof {
            assert(step_views(steps@) =~= before + cross(rows.take(at + 1), columns, flipped));
        }
        at = at + 1;
    }
    proof {
        assert(rows.take(at as int) =~= rows);
    }
}

impl Default for Board {
    /// The board without any tile.
    fn default() -> (board: Board)
        ensures
            board@ == empty_cells(),
    {
        Board::new()
    }
}

} // verus!
