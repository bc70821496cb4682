use std::time::Duration;

use sigmar_garden::board::{Board, Step};
use sigmar_garden::control::{BoardState, Notice};
use sigmar_garden::element::Element;
use sigmar_garden::index::SigIndex;
use sigmar_garden::solver::{out_of_time, InitialBoard, Progress, Search, SolveResult};

const STRAIGHT: &str =
    "ASFW.WQQ.VF.EA.A.QL...FEM.F.GW.V...S.TMEEW.FW.VV..C..QE..FMF.A.F.A...QEI.AUWA..A...SWM.EWES";

const WINDING: &str =
    "W.WWME..E.QESTA...C.WQQ.VWU..W...SE.GIAEVWS...E.QQS..MFE.FE.AF.MAF.F...A..A.VMVAA..F.F.FW.L";

const STUCK: &str =
    "........QSQ...QSSSAQ..AAAAAAA..QFFFFFFV...FFWWWWW...VWWWEEEV..EEEEEMM..VMMLCG...TUI........";

const DEAD_END: &str =
    "........SSS...QSAAAQ..AAAAAFF..QFFFFFFQ...WWWWWWW...QWEEEEEV..EEEMMMM..VLTICV...VUG........";

fn index(number: usize) -> SigIndex {
    SigIndex::new(number as i8).unwrap()
}

fn element_of(letter: char) -> Option<Element> {
    match letter {
        '.' => None,
        'S' => Some(Element::Salt),
        'A' => Some(Element::Air),
        'F' => Some(Element::Fire),
        'W' => Some(Element::Water),
        'E' => Some(Element::Earth),
        'V' => Some(Element::Vitae),
        'M' => Some(Element::Mors),
        'Q' => Some(Element::Quicksilver),
        'L' => Some(Element::Lead),
        'T' => Some(Element::Tin),
        'I' => Some(Element::Iron),
        'C' => Some(Element::Copper),
        'U' => Some(Element::Silver),
        'G' => Some(Element::Gold),
        other => panic!("no such tile: {other}"),
    }
}

fn layout_board(layout: &str) -> Board {
    assert_eq!(layout.len(), 91);
    let mut board = Board::new();
    for (number, letter) in layout.chars().enumerate() {
        board.set(index(number), element_of(letter));
    }
    board
}

fn initial(layout: &str) -> InitialBoard {
    InitialBoard::new(layout_board(layout)).unwrap()
}

fn pairs(steps: &[Step]) -> Vec<(usize, usize)> {
    steps.iter().map(|step| (step.0[0].to_usize(), step.0[1].to_usize())).collect()
}

/// Replays `steps` on `board`, each of them checked against the legal moves
/// of the position it is made in, and returns the number of cells cleared.
fn replay(mut board: Board, steps: &[Step]) -> (Board, usize) {
    let mut cleared = 0;
    for step in steps {
        assert!(board.valid_steps().contains(step));
        for cell in [step.0[0], step.0[1]] {
            if board.get(cell).is_some() {
                cleared += 1;
            }
            board.set(cell, None);
        }
    }
    (board, cleared)
}

/// Runs the search to its end without a clock and counts its steps.
fn run(layout: &str) -> (SolveResult, usize) {
    let mut search = Search::new(initial(layout));
    let mut steps = 0;
    loop {
        steps += 1;
        match search.advance() {
            Progress::Finished(result) => return (result, steps),
            Progress::Backtracked(after) | Progress::Deepened(after) => search = after,
        }
    }
}

#[test]
fn initial_board_takes_the_canonical_composition() {
    let board = layout_board(STRAIGHT);
    let accepted = InitialBoard::new(board).unwrap();
    assert_eq!(accepted.board(), board);
    assert!(InitialBoard::new(layout_board(STUCK)).is_some());
}

#[test]
fn initial_board_refuses_any_other_composition() {
    assert!(InitialBoard::new(Board::new()).is_none());
    let mut board = layout_board(STRAIGHT);
    board.set(index(0), None);
    assert!(InitialBoard::new(board).is_none());
    let mut board = layout_board(STRAIGHT);
    board.set(index(4), Some(Element::Gold));
    assert!(InitialBoard::new(board).is_none());
    let mut board = layout_board(STRAIGHT);
    board.set(index(0), Some(Element::Salt));
    assert!(InitialBoard::new(board).is_none());
}

#[test]
fn solve_finds_the_solution_of_a_plain_layout() {
    let SolveResult::Solution(steps) = initial(STRAIGHT).solve(Duration::from_secs(15)) else {
        panic!("no solution found");
    };
    assert_eq!(
        pairs(&steps),
        vec![
            (18, 69), (70, 87), (12, 40), (84, 88), (41, 44), (85, 31), (54, 89), (5, 29),
            (59, 63), (43, 57), (58, 46), (24, 47), (37, 53), (23, 39), (22, 26), (71, 17),
            (38, 9), (76, 79), (3, 75), (2, 10), (65, 73), (15, 61), (50, 7), (0, 13), (74, 6),
            (28, 28), (83, 90), (1, 35),
        ]
    );
}

#[test]
fn solve_backtracks_to_the_solution_of_a_winding_layout() {
    let SolveResult::Solution(steps) = initial(WINDING).solve(Duration::from_secs(15)) else {
        panic!("no solution found");
    };
    assert_eq!(
        pairs(&steps),
        vec![
            (90, 22), (13, 21), (77, 78), (46, 55), (8, 34), (2, 88), (0, 3), (4, 76), (85, 87),
            (67, 83), (5, 58), (61, 65), (54, 57), (79, 80), (71, 74), (63, 40), (53, 24),
            (25, 41), (60, 64), (14, 50), (39, 12), (20, 29), (11, 42), (38, 33), (37, 49),
            (18, 48), (26, 10), (36, 36),
        ]
    );
}

#[test]
fn solution_replays_to_the_empty_board() {
    for layout in [STRAIGHT, WINDING] {
        let SolveResult::Solution(steps) = initial(layout).solve(Duration::from_secs(15)) else {
            panic!("no solution found");
        };
        let (board, cleared) = replay(layout_board(layout), &steps);
        assert!(board.is_solved());
        assert_eq!(board, Board::new());
        assert_eq!(cleared, 55);
        let named: usize =
            steps.iter().map(|step| if step.0[0] == step.0[1] { 1 } else { 2 }).sum();
        assert_eq!(named, 55);
    }
}

#[test]
fn solve_reports_a_board_without_moves_as_unsolvable() {
    let board = layout_board(STUCK);
    assert!(board.valid_steps().is_empty());
    for number in 0..91 {
        if board.get(index(number)) == Some(Element::Fire) {
            assert!(!board.free_elements().contains(&index(number)));
        }
    }
    assert!(matches!(initial(STUCK).solve(Duration::from_secs(15)), SolveResult::Unsolvable));
}

#[test]
fn solve_exhausts_a_dead_end() {
    let board = layout_board(DEAD_END);
    assert_eq!(pairs(&board.valid_steps()), vec![(8, 10)]);
    assert!(matches!(initial(DEAD_END).solve(Duration::from_secs(15)), SolveResult::Unsolvable));
}

#[test]
fn solve_gives_up_when_the_time_is_over() {
    assert!(matches!(initial(WINDING).solve(Duration::ZERO), SolveResult::Timeout));
    assert!(matches!(initial(STRAIGHT).solve(Duration::ZERO), SolveResult::Timeout));
}

#[test]
fn solve_without_a_move_ends_before_the_clock_is_read() {
    assert!(matches!(initial(STUCK).solve(Duration::ZERO), SolveResult::Unsolvable));
}

#[test]
fn search_takes_one_step_for_each_move_made_or_taken_back() {
    let (result, steps) = run(STRAIGHT);
    assert!(matches!(result, SolveResult::Solution(found) if found.len() == 28));
    assert_eq!(steps, 28);
    let (result, steps) = run(WINDING);
    assert!(matches!(result, SolveResult::Solution(found) if found.len() == 28));
    assert_eq!(steps, 92);
    let (result, steps) = run(STUCK);
    assert!(matches!(result, SolveResult::Unsolvable));
    assert_eq!(steps, 2);
    let (result, steps) = run(DEAD_END);
    assert!(matches!(result, SolveResult::Unsolvable));
    assert_eq!(steps, 4);
}

#[test]
fn search_without_a_clock_runs_to_the_end() {
    let SolveResult::Solution(steps) = Search::new(initial(WINDING)).run_to_end() else {
        panic!("no solution found");
    };
    let (board, cleared) = replay(layout_board(WINDING), &steps);
    assert!(board.is_solved());
    assert_eq!(cleared, 55);
    assert!(matches!(Search::new(initial(STUCK)).run_to_end(), SolveResult::Unsolvable));
    assert!(matches!(Search::new(initial(DEAD_END)).run_to_end(), SolveResult::Unsolvable));
}

#[test]
fn search_makes_the_last_legal_move_first() {
    let start = initial(STRAIGHT);
    let moves = start.board().valid_steps();
    let Progress::Deepened(after) = Search::new(start).advance() else {
        panic!("the first move does not end the search");
    };
    let Progress::Deepened(_) = after.advance() else {
        panic!("the second move does not end the search");
    };
    assert_eq!(pairs(&moves).last(), Some(&(18, 69)));
}

#[test]
fn player_wakes_into_the_state_it_slept_for() {
    let board = initial(STRAIGHT);
    assert_eq!(BoardState::SleepSearch.sleep_seconds(), Some(1));
    assert_eq!(BoardState::SleepValidate(board).sleep_seconds(), Some(2));
    assert_eq!(BoardState::SleepUnsolvable(board).sleep_seconds(), Some(1));
    assert_eq!(BoardState::Search.sleep_seconds(), None);
    assert_eq!(BoardState::Ready(board).sleep_seconds(), None);
    assert_eq!(BoardState::SleepSearch.after_sleep(), BoardState::Search);
    assert_eq!(BoardState::SleepValidate(board).after_sleep(), BoardState::Validate(board));
    assert_eq!(BoardState::SleepUnsolvable(board).after_sleep(), BoardState::Unsolvable(board));
    assert_eq!(BoardState::Ready(board).after_sleep(), BoardState::Ready(board));
}

#[test]
fn player_validates_a_board_before_it_solves_it() {
    let board = initial(STRAIGHT);
    let other = initial(WINDING);
    assert_eq!(
        BoardState::Search.after_scan(Some(board)),
        (BoardState::SleepValidate(board), Notice::FoundBoard)
    );
    assert_eq!(BoardState::Search.after_scan(None), (BoardState::SleepSearch, Notice::Silent));
    assert_eq!(
        BoardState::Validate(board).after_scan(Some(board)),
        (BoardState::Ready(board), Notice::BoardReady)
    );
    assert_eq!(
        BoardState::Validate(board).after_scan(Some(other)),
        (BoardState::SleepValidate(board), Notice::BoardChanged)
    );
    assert_eq!(
        BoardState::Validate(board).after_scan(None),
        (BoardState::SleepValidate(board), Notice::BoardChanged)
    );
    assert_eq!(
        BoardState::Ready(board).after_scan(Some(other)),
        (BoardState::Ready(board), Notice::Silent)
    );
}

#[test]
fn player_waits_while_an_unsolvable_board_stays() {
    let stuck = initial(STUCK);
    let other = initial(WINDING);
    assert_eq!(
        BoardState::Unsolvable(stuck).after_scan(Some(stuck)),
        (BoardState::SleepUnsolvable(stuck), Notice::Silent)
    );
    assert_eq!(
        BoardState::Unsolvable(stuck).after_scan(Some(other)),
        (BoardState::SleepValidate(other), Notice::FoundBoard)
    );
    assert_eq!(
        BoardState::Unsolvable(stuck).after_scan(None),
        (BoardState::SleepSearch, Notice::Silent)
    );
}

#[test]
fn player_follows_the_outcome_of_the_search() {
    let board = initial(STRAIGHT);
    let steps = vec![Step([index(1), index(2)]), Step([index(3), index(3)])];
    assert_eq!(
        BoardState::Ready(board).after_solve(SolveResult::Solution(steps.clone())),
        (BoardState::Solve(steps.clone()), Notice::Solved)
    );
    assert_eq!(
        BoardState::Ready(board).after_solve(SolveResult::Timeout),
        (BoardState::SleepSearch, Notice::TimedOut)
    );
    assert_eq!(
        BoardState::Ready(board).after_solve(SolveResult::Unsolvable),
        (BoardState::SleepUnsolvable(board), Notice::NoSolution)
    );
    assert_eq!(
        BoardState::Search.after_solve(SolveResult::Timeout),
        (BoardState::Search, Notice::Silent)
    );
    assert_eq!(BoardState::Solve(steps).after_apply(), BoardState::SleepSearch);
    assert_eq!(BoardState::Ready(board).after_apply(), BoardState::Ready(board));
}

#[test]
fn boards_compare_cell_by_cell() {
    let board = initial(STRAIGHT);
    let other = initial(WINDING);
    assert!(board.same_cells(board));
    assert!(!board.same_cells(other));
    let mut changed = layout_board(STRAIGHT);
    assert!(changed.same_cells(board.board()));
    changed.set(index(90), None);
    assert!(!changed.same_cells(board.board()));
    assert!(!board.board().same_cells(changed));
}

#[test]
fn time_is_over_once_more_than_the_limit_has_passed() {
    assert!(!out_of_time(0, 0));
    assert!(out_of_time(1, 0));
    assert!(!out_of_time(5_000_000_000, 5_000_000_000));
    assert!(out_of_time(5_000_000_001, 5_000_000_000));
    assert!(!out_of_time(4_999_999_999, 5_000_000_000));
    assert!(!out_of_time(0, u128::MAX));
    assert!(out_of_time(u128::MAX, 0));
}
