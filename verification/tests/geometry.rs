use breviewer::geometry::{nearest, ranges_overlap, AreaDescription, Direction, Rect};

fn main_layout() -> Vec<AreaDescription> {
    let mut areas = vec![AreaDescription::new(0, 0, 100, 80)];
    for i in 0..8usize {
        areas.push(breviewer::config::field_area(i));
    }
    areas
}

#[test]
fn area_edges_and_centres() {
    let a = AreaDescription::new(10, 20, 31, 7);
    assert_eq!(a.left(), 10);
    assert_eq!(a.right(), 41);
    assert_eq!(a.top(), 20);
    assert_eq!(a.bottom(), 27);
    assert_eq!(a.center_x(), 25);
    assert_eq!(a.center_y(), 23);
}

#[test]
fn area_edges_do_not_overflow() {
    let a = AreaDescription::new(255, 255, 255, 255);
    assert_eq!(a.right(), 510);
    assert_eq!(a.bottom(), 510);
    assert_eq!(a.center_x(), 382);
}

#[test]
fn overlap_of_half_open_ranges() {
    assert!(ranges_overlap(0, 10, 5, 15));
    assert!(ranges_overlap(5, 15, 0, 10));
    assert!(!ranges_overlap(0, 10, 10, 20));
    assert!(!ranges_overlap(10, 20, 0, 10));
    assert!(ranges_overlap(0, 10, 2, 3));
    assert!(!ranges_overlap(0, 0, 0, 10));
    // an empty range meets nothing, not even a range around it
    assert!(!ranges_overlap(5, 5, 0, 10));
    assert!(!ranges_overlap(0, 10, 5, 5));
}

#[test]
fn neighbours_in_the_main_layout() {
    let areas = main_layout();
    // the reviews grid sits above the first row of fields: the aligned
    // field straight below it with the smallest gap, the first one listed
    assert_eq!(nearest(&areas, 0, Direction::Down), Some(1));
    assert_eq!(nearest(&areas, 0, Direction::Up), None);
    // no field lines up with the reviews sideways: the nearest centre on
    // that side wins (fields 2 and 3 of the first row)
    assert_eq!(nearest(&areas, 0, Direction::Left), Some(2));
    assert_eq!(nearest(&areas, 0, Direction::Right), Some(3));
    // first field: reviews above, second field to its right, fifth below
    assert_eq!(nearest(&areas, 1, Direction::Up), Some(0));
    assert_eq!(nearest(&areas, 1, Direction::Right), Some(2));
    assert_eq!(nearest(&areas, 1, Direction::Down), Some(5));
    assert_eq!(nearest(&areas, 1, Direction::Left), None);
    // last field of the first row
    assert_eq!(nearest(&areas, 4, Direction::Right), None);
    assert_eq!(nearest(&areas, 4, Direction::Left), Some(3));
    assert_eq!(nearest(&areas, 4, Direction::Down), Some(8));
    // second row
    assert_eq!(nearest(&areas, 6, Direction::Up), Some(2));
    assert_eq!(nearest(&areas, 6, Direction::Down), None);
}

#[test]
fn fallback_goes_by_centre_distance() {
    // nothing overlaps vertically with the first area to its right, so the
    // nearest centre to the right wins
    let areas = vec![
        AreaDescription::new(0, 0, 10, 10),
        AreaDescription::new(50, 50, 10, 10),
        AreaDescription::new(20, 30, 10, 10),
    ];
    assert_eq!(nearest(&areas, 0, Direction::Right), Some(2));
    assert_eq!(nearest(&areas, 0, Direction::Down), Some(2));
    assert_eq!(nearest(&areas, 1, Direction::Left), Some(2));
}

#[test]
fn aligned_wins_over_a_nearer_centre() {
    let areas = vec![
        AreaDescription::new(0, 0, 10, 10),
        AreaDescription::new(80, 0, 10, 10),
        AreaDescription::new(12, 11, 10, 10),
    ];
    // area 2 has the nearer centre, but only area 1 lines up with area 0
    assert_eq!(nearest(&areas, 0, Direction::Right), Some(1));
}

#[test]
fn ties_go_to_the_first_listed() {
    let areas = vec![
        AreaDescription::new(0, 0, 10, 10),
        AreaDescription::new(20, 0, 10, 5),
        AreaDescription::new(20, 5, 10, 5),
    ];
    assert_eq!(nearest(&areas, 0, Direction::Right), Some(1));
    let swapped = vec![areas[0], areas[2], areas[1]];
    assert_eq!(nearest(&swapped, 0, Direction::Right), Some(1));
}

#[test]
fn a_lone_area_has_no_neighbours() {
    let areas = vec![AreaDescription::new(10, 10, 10, 10)];
    assert_eq!(nearest(&areas, 0, Direction::Up), None);
    assert_eq!(nearest(&areas, 0, Direction::Right), None);
    assert_eq!(nearest(&areas, 0, Direction::Down), None);
    assert_eq!(nearest(&areas, 0, Direction::Left), None);
}

#[test]
fn rect_intersection() {
    let a = Rect::new(0, 0, 10, 10);
    let b = Rect::new(5, 5, 10, 10);
    assert_eq!(a.intersection(b), Rect::new(5, 5, 5, 5));
    let c = Rect::new(20, 20, 5, 5);
    let d = a.intersection(c);
    assert_eq!(d.width, 0);
    assert_eq!(d.height, 0);
    assert_eq!(Rect::new(65530, 0, 10, 1).right(), u16::MAX);
}
