use sigmar_garden::board::{Board, Step};
use sigmar_garden::element::Element;
use sigmar_garden::index::{SigCoord, SigIndex};

const SOLVABLE: &str =
    "ASFW.WQQ.VF.EA.A.QL...FEM.F.GW.V...S.TMEEW.FW.VV..C..QE..FMF.A.F.A...QEI.AUWA..A...SWM.EWES";

const ORDERED: &str =
    "S.A.S........F.M.V.A..........Q.L.S.W.E.............V.M.Q.T.G..........F.A.E.W........S.Q.F";

fn index(number: usize) -> SigIndex {
    SigIndex::new(number as i8).unwrap()
}

fn at(row: i8, col: i8) -> SigIndex {
    SigIndex::from(SigCoord::new(row, col).unwrap())
}

fn element_of(letter: char) -> Option<Element> {
    match letter {
        '.' => None,
        'S' => Some(Element::Salt),
        'A' => Some(Element::Air),
        'F' => Some(Element::Fire),
        'W' => Some(Element::Water),
        'E' => Some(Element::Earth),
        'V' => Some(Element::Vitae),
        'M' => Some(Element::Mors),
        'Q' => Some(Element::Quicksilver),
        'L' => Some(Element::Lead),
        'T' => Some(Element::Tin),
        'I' => Some(Element::Iron),
        'C' => Some(Element::Copper),
        'U' => Some(Element::Silver),
        'G' => Some(Element::Gold),
        other => panic!("no such tile: {other}"),
    }
}

fn board_from(layout: &str) -> Board {
    assert_eq!(layout.len(), 91);
    let mut board = Board::new();
    for (number, letter) in layout.chars().enumerate() {
        board.set(index(number), element_of(letter));
    }
    board
}

fn pairs(steps: &[Step]) -> Vec<(usize, usize)> {
    steps.iter().map(|step| (step.0[0].to_usize(), step.0[1].to_usize())).collect()
}

/// A tile at the center with the given neighbors, clockwise from the right:
/// `true` for a slot that holds a tile.
fn center_with_neighbors(occupied: [bool; 6]) -> Board {
    let center = SigCoord::new(0, 0).unwrap();
    let mut board = Board::new();
    board.set(SigIndex::from(center), Some(Element::Fire));
    for (slot, neighbor) in center.adjacent_cw().into_iter().enumerate() {
        if occupied[slot] {
            board.set(SigIndex::from(neighbor.unwrap()), Some(Element::Earth));
        }
    }
    board
}

#[test]
fn new_board_is_empty() {
    let board = Board::new();
    for number in 0..91 {
        assert_eq!(board.get(index(number)), None);
    }
    assert!(board.is_solved());
    assert_eq!(board, Board::default());
    assert!(board.free_elements().is_empty());
    assert!(board.valid_steps().is_empty());
    assert!(!board.is_valid_initial_state());
}

#[test]
fn set_changes_one_cell_only() {
    let mut board = board_from(SOLVABLE);
    let before = board;
    for number in [0usize, 1, 44, 45, 89, 90] {
        for element in [Some(Element::Gold), None, Some(Element::Salt), Some(Element::Quicksilver)] {
            let mut changed = before;
            changed.set(index(number), element);
            for other in 0..91 {
                let expected = if other == number { element } else { before.get(index(other)) };
                assert_eq!(changed.get(index(other)), expected);
            }
        }
    }
    board.set(index(7), board.get(index(7)));
    assert_eq!(board, before);
}

#[test]
fn board_reads_back_what_was_written() {
    let board = board_from(SOLVABLE);
    for (number, letter) in SOLVABLE.chars().enumerate() {
        assert_eq!(board.get(index(number)), element_of(letter));
    }
    assert!(!board.is_solved());
}

#[test]
fn board_with_one_tile_is_not_solved() {
    for number in [0usize, 1, 45, 89, 90] {
        let mut board = Board::new();
        board.set(index(number), Some(Element::Salt));
        assert!(!board.is_solved());
        board.set(index(number), None);
        assert!(board.is_solved());
        assert_eq!(board, Board::new());
    }
}

#[test]
fn three_consecutive_open_sides_make_a_tile_free() {
    let center = SigCoord::new(0, 0).unwrap();
    let board = center_with_neighbors([false, false, false, true, true, true]);
    assert!(board.is_free(center));
    assert!(board.free_elements().contains(&SigIndex::from(center)));
}

#[test]
fn three_open_sides_that_are_not_consecutive_do_not() {
    let center = SigCoord::new(0, 0).unwrap();
    let board = center_with_neighbors([true, false, false, true, false, true]);
    assert!(!board.is_free(center));
    assert!(!board.free_elements().contains(&SigIndex::from(center)));
}

#[test]
fn open_sides_wrap_around() {
    let center = SigCoord::new(0, 0).unwrap();
    assert!(center_with_neighbors([false, true, true, true, false, false]).is_free(center));
    assert!(center_with_neighbors([false, false, true, true, true, false]).is_free(center));
    assert!(center_with_neighbors([true, false, false, false, true, true]).is_free(center));
    assert!(!center_with_neighbors([false, false, true, false, false, true]).is_free(center));
    assert!(!center_with_neighbors([true, true, true, true, true, true]).is_free(center));
    assert!(!center_with_neighbors([false, true, false, true, false, true]).is_free(center));
    assert!(center_with_neighbors([false, false, false, false, false, false]).is_free(center));
}

#[test]
fn positions_off_the_board_count_as_open() {
    let corner = SigCoord::new(-5, -5).unwrap();
    let mut board = Board::new();
    board.set(SigIndex::from(corner), Some(Element::Air));
    for neighbor in corner.adjacent_cw().into_iter().flatten() {
        board.set(SigIndex::from(neighbor), Some(Element::Earth));
    }
    assert!(board.is_free(corner));
    let edge = SigCoord::new(5, 2).unwrap();
    let mut board = Board::new();
    for neighbor in edge.adjacent_cw().into_iter().flatten() {
        board.set(SigIndex::from(neighbor), Some(Element::Earth));
    }
    assert!(!board.is_free(edge));
}

#[test]
fn free_elements_lists_occupied_free_cells_in_order() {
    let board = board_from(SOLVABLE);
    let free: Vec<usize> = board.free_elements().into_iter().map(SigIndex::to_usize).collect();
    assert_eq!(
        free,
        vec![
            0, 3, 5, 12, 13, 18, 24, 28, 29, 35, 40, 41, 43, 44, 50, 53, 57, 59, 61, 65, 69, 70,
            73, 76, 79, 84, 85, 87, 90
        ]
    );
    let mut changed = board;
    changed.set(index(0), None);
    let free_after: Vec<usize> =
        changed.free_elements().into_iter().map(SigIndex::to_usize).collect();
    assert!(!free_after.contains(&0));
    assert!(free_after.contains(&1));
}

#[test]
fn canonical_composition_is_valid() {
    assert!(board_from(SOLVABLE).is_valid_initial_state());
}

#[test]
fn one_tile_less_of_any_type_is_invalid() {
    let board = board_from(SOLVABLE);
    let mut seen = Vec::new();
    for number in 0..91 {
        if let Some(element) = board.get(index(number)) {
            if !seen.contains(&element) {
                seen.push(element);
                let mut changed = board;
                changed.set(index(number), None);
                assert!(!changed.is_valid_initial_state());
            }
        }
    }
    assert_eq!(seen.len(), 14);
}

#[test]
fn one_tile_more_of_any_type_is_invalid() {
    let board = board_from(SOLVABLE);
    assert_eq!(board.get(index(4)), None);
    for code in 1..=14 {
        let mut changed = board;
        changed.set(index(4), Element::from_index(code));
        assert!(!changed.is_valid_initial_state());
    }
}

#[test]
fn a_tile_of_the_wrong_type_is_invalid() {
    let mut board = board_from(SOLVABLE);
    assert_eq!(board.get(index(2)), Some(Element::Fire));
    board.set(index(2), Some(Element::Water));
    assert!(!board.is_valid_initial_state());
    board.set(index(2), Some(Element::Fire));
    assert!(board.is_valid_initial_state());
}

#[test]
fn self_combinations_pair_each_tile_with_each_later_one() {
    let board = board_from(ORDERED);
    assert_eq!(
        pairs(&board.self_combinations(Element::Salt)),
        vec![(0, 4), (0, 34), (0, 86), (4, 34), (4, 86), (34, 86)]
    );
    assert_eq!(pairs(&board.self_combinations(Element::Air)), vec![(2, 19), (2, 73), (19, 73)]);
    assert_eq!(pairs(&board.self_combinations(Element::Water)), vec![(36, 77)]);
    assert_eq!(pairs(&board.self_combinations(Element::Lead)), vec![]);
    assert_eq!(pairs(&board.self_combinations(Element::Gold)), vec![]);
}

#[test]
fn self_combinations_skip_tiles_that_are_not_free() {
    let mut board = center_with_neighbors([true, true, true, true, true, true]);
    board.set(at(-5, -5), Some(Element::Fire));
    board.set(at(5, 5), Some(Element::Fire));
    assert_eq!(pairs(&board.self_combinations(Element::Fire)), vec![(0, 90)]);
    assert_eq!(board.self_combinations(Element::Earth).len(), 15);
}

#[test]
fn valid_steps_come_in_the_fixed_order() {
    let board = board_from(ORDERED);
    assert_eq!(
        pairs(&board.valid_steps()),
        vec![
            (0, 4), (0, 34), (0, 86), (4, 34), (4, 86), (34, 86),
            (2, 0), (19, 0), (73, 0), (13, 0), (71, 0), (90, 0), (36, 0), (77, 0), (38, 0), (75, 0),
            (2, 4), (19, 4), (73, 4), (13, 4), (71, 4), (90, 4), (36, 4), (77, 4), (38, 4), (75, 4),
            (2, 34), (19, 34), (73, 34), (13, 34), (71, 34), (90, 34), (36, 34), (77, 34), (38, 34),
            (75, 34),
            (2, 86), (19, 86), (73, 86), (13, 86), (71, 86), (90, 86), (36, 86), (77, 86), (38, 86),
            (75, 86),
            (2, 19), (2, 73), (19, 73),
            (13, 71), (13, 90), (71, 90),
            (36, 77),
            (38, 75),
            (15, 17), (15, 52), (54, 17), (54, 52),
            (32, 30), (32, 56), (32, 88),
        ]
    );
}

#[test]
fn valid_steps_of_a_full_game() {
    let steps = pairs(&board_from(SOLVABLE).valid_steps());
    assert_eq!(steps.len(), 88);
    assert_eq!(steps[0], (35, 90));
    assert_eq!(steps[1], (0, 35));
    assert_eq!(steps[85], (70, 87));
    assert_eq!(steps[86], (18, 53));
    assert_eq!(steps[87], (18, 69));
}

#[test]
fn lead_goes_before_tin_and_gold() {
    let mut board = Board::new();
    board.set(at(-5, -5), Some(Element::Lead));
    board.set(at(-5, -3), Some(Element::Tin));
    board.set(at(-3, -3), Some(Element::Quicksilver));
    board.set(at(0, 0), Some(Element::Quicksilver));
    board.set(at(5, 5), Some(Element::Gold));
    let lead = at(-5, -5).to_usize();
    let tin = at(-5, -3).to_usize();
    let gold = at(5, 5).to_usize();
    let steps = pairs(&board.valid_steps());
    assert_eq!(steps, vec![(lead, at(-3, -3).to_usize()), (lead, at(0, 0).to_usize())]);
    assert!(steps.iter().all(|step| step.0 != tin && step.1 != tin));
    assert!(steps.iter().all(|step| step.0 != gold && step.1 != gold));
}

#[test]
fn tin_follows_once_lead_is_gone() {
    let mut board = Board::new();
    board.set(at(-5, -3), Some(Element::Tin));
    board.set(at(3, 3), Some(Element::Silver));
    board.set(at(-3, -3), Some(Element::Quicksilver));
    board.set(at(5, 5), Some(Element::Gold));
    assert_eq!(
        pairs(&board.valid_steps()),
        vec![(at(-5, -3).to_usize(), at(-3, -3).to_usize())]
    );
}

#[test]
fn gold_leaves_alone_once_no_metal_is_left() {
    let mut board = Board::new();
    board.set(at(2, 1), Some(Element::Gold));
    board.set(at(-3, -3), Some(Element::Quicksilver));
    let gold = at(2, 1).to_usize();
    assert_eq!(pairs(&board.valid_steps()), vec![(gold, gold)]);
}

#[test]
fn gold_waits_for_a_metal_that_is_not_free() {
    let board = board_from(
        "Q....T............................FF........FLF........FF.................................G",
    );
    assert_eq!(board.get(index(45)), Some(Element::Lead));
    assert!(!board.is_free(SigCoord::from(index(45))));
    assert!(board.is_free(SigCoord::from(index(90))));
    let steps = pairs(&board.valid_steps());
    assert_eq!(
        steps,
        vec![
            (34, 35), (34, 44), (34, 46), (34, 55), (34, 56), (35, 44), (35, 46), (35, 55),
            (35, 56), (44, 46), (44, 55), (44, 56), (46, 55), (46, 56), (55, 56),
        ]
    );
    assert!(steps.iter().all(|step| step.0 != 90 && step.1 != 90));
    assert!(steps.iter().all(|step| step.0 != 5 && step.1 != 5));
}

#[test]
fn gold_waits_for_a_free_metal_too() {
    let mut board = Board::new();
    board.set(at(2, 1), Some(Element::Gold));
    board.set(at(-2, -1), Some(Element::Silver));
    assert!(board.valid_steps().is_empty());
    board.set(at(0, 3), Some(Element::Quicksilver));
    assert_eq!(pairs(&board.valid_steps()), vec![(at(-2, -1).to_usize(), at(0, 3).to_usize())]);
}

#[test]
fn gold_that_is_not_free_cannot_leave() {
    let mut board = center_with_neighbors([true, true, true, true, true, true]);
    board.set(at(0, 0), Some(Element::Gold));
    let steps = pairs(&board.valid_steps());
    assert_eq!(steps.len(), 15);
    assert!(steps.iter().all(|step| step.0 != 45 && step.1 != 45));
}

#[test]
fn mors_pairs_with_vitae_only() {
    let mut board = Board::new();
    board.set(at(-5, -5), Some(Element::Mors));
    board.set(at(-3, -3), Some(Element::Mors));
    board.set(at(0, 0), Some(Element::Vitae));
    board.set(at(3, 3), Some(Element::Vitae));
    let first = at(-5, -5).to_usize();
    let second = at(-3, -3).to_usize();
    let third = at(0, 0).to_usize();
    let fourth = at(3, 3).to_usize();
    assert_eq!(
        pairs(&board.valid_steps()),
        vec![(first, third), (first, fourth), (second, third), (second, fourth)]
    );
}

#[test]
fn quicksilver_alone_has_no_move() {
    let mut board = Board::new();
    board.set(at(-5, -5), Some(Element::Quicksilver));
    board.set(at(0, 0), Some(Element::Quicksilver));
    board.set(at(3, 3), Some(Element::Vitae));
    board.set(at(5, 5), Some(Element::Vitae));
    assert!(board.valid_steps().is_empty());
}
