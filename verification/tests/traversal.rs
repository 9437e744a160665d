use rphys::grid::{Grid, SectionId};
use rphys::library::Vec2;
use rphys::SCALE;

fn plinko_grid() -> Grid {
    Grid::new(50, 50, 520, 800)
}

#[test]
fn test_traversal_same_point() {
    // a segment from a point to itself yields exactly that point's cell
    let g = plinko_grid();
    let p = Vec2 { x: 75 * SCALE, y: 75 * SCALE };
    let cells = g.get_sections_between_points(p, p);
    assert_eq!(cells, vec![SectionId { x: 2, y: 2 }]);
}

#[test]
fn test_traversal_same_cell() {
    let g = plinko_grid();
    let s = Vec2 { x: 60 * SCALE, y: 60 * SCALE };
    let e = Vec2 { x: 90 * SCALE, y: 90 * SCALE };
    let cells = g.get_sections_between_points(s, e);
    assert_eq!(cells, vec![SectionId { x: 2, y: 2 }]);
}

#[test]
fn test_traversal_full_height_column() {
    // a border wall spanning the window height in one column visits every
    // cell row from top to bottom, each exactly once
    let g = plinko_grid();
    let s = Vec2 { x: 0, y: 0 };
    let e = Vec2 { x: 0, y: 800 * SCALE };
    let cells = g.get_sections_between_points(s, e);
    assert_eq!(cells.len(), 17);
    for (row, cell) in cells.iter().enumerate() {
        assert_eq!(*cell, SectionId { x: 1, y: 1 + row });
    }
}

#[test]
fn test_traversal_diagonal_no_duplicates() {
    let g = plinko_grid();
    let s = Vec2 { x: 10 * SCALE, y: 10 * SCALE };
    let e = Vec2 { x: 410 * SCALE, y: 710 * SCALE };
    let cells = g.get_sections_between_points(s, e);
    assert_eq!(cells[0], SectionId { x: 1, y: 1 });
    assert!(cells.contains(&SectionId { x: 9, y: 15 }));
    for i in 0..cells.len() {
        for j in (i + 1)..cells.len() {
            assert_ne!(cells[i], cells[j]);
        }
    }
}

#[test]
fn test_traversal_leaving_the_grid() {
    // a segment that leaves the valid range records the sentinel and stops
    let g = plinko_grid();
    let s = Vec2 { x: 0, y: 0 };
    let e = Vec2 { x: -300 * SCALE, y: 0 };
    let cells = g.get_sections_between_points(s, e);
    let sentinel = SectionId { x: usize::MAX, y: usize::MAX };
    assert_eq!(cells[0], SectionId { x: 1, y: 1 });
    assert!(cells.contains(&sentinel));
    for i in 0..cells.len() {
        for j in (i + 1)..cells.len() {
            assert_ne!(cells[i], cells[j]);
        }
    }
}
