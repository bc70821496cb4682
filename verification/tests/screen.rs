use sigmar_garden::element::Element;
use sigmar_garden::index::SigCoord;
use sigmar_garden::scanner::{
    best_element, channel_differences, channel_sum, scan_position, ElementImageKey,
};
use sigmar_garden::screen::coord_to_screen;

fn cell(row: i8, col: i8) -> SigCoord {
    SigCoord::new(row, col).unwrap()
}

#[test]
fn cells_lie_on_a_skewed_grid() {
    assert_eq!(coord_to_screen(cell(0, 0)), (1216, 504));
    assert_eq!(coord_to_screen(cell(0, 1)), (1282, 504));
    assert_eq!(coord_to_screen(cell(1, 0)), (1183, 561));
    assert_eq!(coord_to_screen(cell(1, 1)), (1249, 561));
    assert_eq!(coord_to_screen(cell(5, 5)), (1381, 789));
    assert_eq!(coord_to_screen(cell(-5, -5)), (1051, 219));
    assert_eq!(coord_to_screen(cell(-5, 0)), (1381, 219));
    assert_eq!(coord_to_screen(cell(5, 0)), (1051, 789));
    assert_eq!(coord_to_screen(cell(0, -5)), (886, 504));
    assert_eq!(coord_to_screen(cell(-3, 2)), (1447, 333));
}

#[test]
fn scan_area_is_centered_on_the_cell() {
    assert_eq!(scan_position(cell(0, 0)), (1206, 494, 20, 20));
    assert_eq!(scan_position(cell(5, 5)), (1371, 779, 20, 20));
    assert_eq!(scan_position(cell(-5, -5)), (1041, 209, 20, 20));
    assert_eq!(scan_position(cell(0, -5)), (876, 494, 20, 20));
}

#[test]
fn image_key_names_its_tile() {
    assert_eq!(ElementImageKey::Empty.element(), None);
    assert_eq!(ElementImageKey::Normal(Element::Vitae).element(), Some(Element::Vitae));
    assert_eq!(ElementImageKey::Blocked(Element::Gold).element(), Some(Element::Gold));
}

#[test]
fn lowest_score_wins() {
    let scores = [
        (ElementImageKey::Empty, 40),
        (ElementImageKey::Normal(Element::Air), 12),
        (ElementImageKey::Blocked(Element::Fire), 30),
    ];
    assert_eq!(best_element(&scores), Some(Element::Air));
    let scores = [(ElementImageKey::Empty, 0), (ElementImageKey::Normal(Element::Air), 12)];
    assert_eq!(best_element(&scores), None);
    assert_eq!(best_element(&[(ElementImageKey::Blocked(Element::Tin), u32::MAX)]), Some(Element::Tin));
}

#[test]
fn first_of_equal_scores_wins() {
    let scores = [
        (ElementImageKey::Normal(Element::Salt), 9),
        (ElementImageKey::Blocked(Element::Lead), 3),
        (ElementImageKey::Empty, 3),
        (ElementImageKey::Normal(Element::Air), 3),
    ];
    assert_eq!(best_element(&scores), Some(Element::Lead));
}

#[test]
fn differences_are_taken_channel_by_channel() {
    assert_eq!(channel_differences(&[0, 255, 7, 100], &[255, 0, 7, 90]), vec![255, 255, 0, 10]);
    assert_eq!(channel_differences(&[], &[]), Vec::<u8>::new());
}

#[test]
fn channels_add_up_without_overflow() {
    assert_eq!(channel_sum([1, 2, 3]), 6);
    assert_eq!(channel_sum([255, 255, 255]), 765);
    assert_eq!(channel_sum([0, 0, 0]), 0);
}
