use std::collections::BTreeSet;

use sigmar_garden::element::Element;
use sigmar_garden::index::{row_index_offset, SigCoord, SigIndex};

fn index(number: i8) -> SigIndex {
    SigIndex::new(number).unwrap()
}

fn coord(row: i8, col: i8) -> SigCoord {
    SigCoord::new(row, col).unwrap()
}

#[test]
fn coord_index_conversion() {
    let mut all_coords = BTreeSet::new();
    for index in 0..91 {
        let coord = SigCoord::from(SigIndex::new(index).unwrap());
        assert!(all_coords.insert(coord), "coords not unique: {coord:?}");
        assert_eq!(SigIndex::from(coord), SigIndex::new(index).unwrap());
    }
}

#[test]
fn every_index_maps_into_the_diamond() {
    for number in 0..91 {
        let coord = SigCoord::from(index(number));
        let row = coord.row();
        let col = coord.col();
        assert!((-5..=5).contains(&row));
        assert!((-5..=5).contains(&col));
        assert!((-5..=5).contains(&(row - col)));
    }
}

#[test]
fn every_coordinate_of_the_diamond_round_trips() {
    let mut seen = BTreeSet::new();
    for row in -5i8..=5 {
        for col in -5i8..=5 {
            match SigCoord::new(row, col) {
                Some(coord) => {
                    assert!((row - col).abs() <= 5);
                    let index = SigIndex::from(coord);
                    assert!(index.to_usize() < 91);
                    assert!(seen.insert(index));
                    assert_eq!(SigCoord::from(index), coord);
                }
                None => assert!((row - col).abs() > 5),
            }
        }
    }
    assert_eq!(seen.len(), 91);
}

#[test]
fn index_accepts_exactly_the_cells() {
    assert!(SigIndex::new(-1).is_none());
    assert!(SigIndex::new(91).is_none());
    assert!(SigIndex::new(i8::MIN).is_none());
    assert!(SigIndex::new(i8::MAX).is_none());
    assert_eq!(SigIndex::new(0).unwrap().to_usize(), 0);
    assert_eq!(SigIndex::new(90).unwrap().to_usize(), 90);
}

#[test]
fn all_indices_come_in_canonical_order() {
    let all = SigIndex::all();
    assert_eq!(all.len(), 91);
    for (position, index) in all.iter().enumerate() {
        assert_eq!(index.to_usize(), position);
    }
}

#[test]
fn coordinate_accepts_exactly_the_diamond() {
    assert!(SigCoord::new(0, 0).is_some());
    assert!(SigCoord::new(5, 5).is_some());
    assert!(SigCoord::new(-5, -5).is_some());
    assert!(SigCoord::new(5, 0).is_some());
    assert!(SigCoord::new(0, 5).is_some());
    assert!(SigCoord::new(5, -1).is_none());
    assert!(SigCoord::new(-1, 5).is_none());
    assert!(SigCoord::new(6, 3).is_none());
    assert!(SigCoord::new(3, -6).is_none());
    assert!(SigCoord::new(i8::MIN, 0).is_none());
    assert!(SigCoord::new(i8::MAX, i8::MIN).is_none());
    let coord = coord(-2, 3);
    assert_eq!(coord.row(), -2);
    assert_eq!(coord.col(), 3);
}

#[test]
fn row_offsets_have_their_exact_values() {
    let expected = [5, 11, 18, 26, 35, 45, 55, 64, 72, 79, 85];
    for (position, row) in (-5i8..=5).enumerate() {
        assert_eq!(row_index_offset(row), expected[position]);
    }
}

#[test]
fn corners_have_their_exact_indices() {
    assert_eq!(SigIndex::from(coord(-5, -5)), index(0));
    assert_eq!(SigIndex::from(coord(-5, 0)), index(5));
    assert_eq!(SigIndex::from(coord(-4, -5)), index(6));
    assert_eq!(SigIndex::from(coord(0, -5)), index(40));
    assert_eq!(SigIndex::from(coord(0, 0)), index(45));
    assert_eq!(SigIndex::from(coord(0, 5)), index(50));
    assert_eq!(SigIndex::from(coord(1, -4)), index(51));
    assert_eq!(SigIndex::from(coord(5, 0)), index(85));
    assert_eq!(SigIndex::from(coord(5, 5)), index(90));
    assert_eq!(SigCoord::from(index(39)), coord(-1, 4));
    assert_eq!(SigCoord::from(index(60)), coord(1, 5));
}

#[test]
fn center_has_six_neighbors_clockwise_from_the_right() {
    let neighbors = coord(0, 0).adjacent_cw();
    assert_eq!(neighbors.len(), 6);
    assert_eq!(
        neighbors,
        [
            Some(coord(1, 0)),
            Some(coord(1, 1)),
            Some(coord(0, 1)),
            Some(coord(-1, 0)),
            Some(coord(-1, -1)),
            Some(coord(0, -1)),
        ]
    );
}

#[test]
fn corner_has_absent_neighbors() {
    assert_eq!(
        coord(-5, -5).adjacent_cw(),
        [Some(coord(-4, -5)), Some(coord(-4, -4)), Some(coord(-5, -4)), None, None, None]
    );
    assert_eq!(
        coord(5, 5).adjacent_cw(),
        [None, None, None, Some(coord(4, 5)), Some(coord(4, 4)), Some(coord(5, 4))]
    );
    assert_eq!(
        coord(5, 0).adjacent_cw(),
        [None, None, Some(coord(5, 1)), Some(coord(4, 0)), Some(coord(4, -1)), None]
    );
}

#[test]
fn present_neighbors_are_distinct_and_adjacent() {
    for number in 0..91 {
        let center = SigCoord::from(index(number));
        let neighbors = center.adjacent_cw();
        let mut seen = BTreeSet::new();
        let mut present = 0;
        for neighbor in neighbors.into_iter().flatten() {
            present += 1;
            assert!(seen.insert(neighbor));
            let rows = neighbor.row() - center.row();
            let cols = neighbor.col() - center.col();
            assert!(matches!((rows, cols), (1, 0) | (-1, 0) | (0, 1) | (0, -1) | (1, 1) | (-1, -1)));
        }
        assert!(present >= 3);
    }
}

#[test]
fn cell_codes_follow_the_canonical_order() {
    let order = [
        Element::Salt,
        Element::Air,
        Element::Fire,
        Element::Water,
        Element::Earth,
        Element::Vitae,
        Element::Mors,
        Element::Quicksilver,
        Element::Lead,
        Element::Tin,
        Element::Iron,
        Element::Copper,
        Element::Silver,
        Element::Gold,
    ];
    assert_eq!(Element::to_index(None), 0);
    assert_eq!(Element::from_index(0), None);
    for (position, element) in order.into_iter().enumerate() {
        let code = position as u8 + 1;
        assert_eq!(Element::to_index(Some(element)), code);
        assert_eq!(Element::from_index(code), Some(element));
    }
    assert!(Element::Lead < Element::Tin);
    assert!(Element::Tin < Element::Iron);
    assert!(Element::Iron < Element::Copper);
    assert!(Element::Copper < Element::Silver);
}
