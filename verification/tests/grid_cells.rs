use rphys::grid::{Grid, SectionId};
use rphys::items::{Ball, PhysItem};
use rphys::library::Vec2;
use rphys::SCALE;

fn plinko_grid() -> Grid {
    Grid::new(50, 50, 520, 800)
}

fn sentinel() -> SectionId {
    SectionId { x: usize::MAX, y: usize::MAX }
}

fn simple_ball(x: i64, y: i64) -> Ball {
    Ball::new(Vec2 { x, y }, None, None, None, None)
}

#[test]
fn test_grid_new_dimensions() {
    let g = plinko_grid();
    // one cell of padding on each side: (520 + 100) / 50 and (800 + 100) / 50
    assert_eq!(g.x_units, 12);
    assert_eq!(g.y_units, 18);
    assert_eq!(g.ball_cnt, 0);
    assert_eq!(g.balls.len(), 0);
    assert_eq!(g.walls.len(), 0);
}

#[test]
fn test_get_section_out_of_range_is_sentinel() {
    let g = plinko_grid();
    assert_eq!(g.get_section(-1, 0).id, sentinel());
    assert_eq!(g.get_section(0, 18).id, sentinel());
    assert_eq!(g.get_section(3, 4).id, SectionId { x: 3, y: 4 });
}

#[test]
fn test_add_ball_lands_in_queried_cell() {
    // adding a ball and then querying the cell of its position yields the
    // cell it was inserted into
    let mut g = plinko_grid();
    let idx = g.add_ball(simple_ball(75 * SCALE, 75 * SCALE));
    assert_eq!(idx, 0);
    assert_eq!(g.ball_cnt, 1);
    let cached = g.balls[idx].unwrap().unit_id;
    let section = g.get_section_at_position(75 * SCALE, 75 * SCALE);
    assert_eq!(section.id, cached);
    assert_eq!(section.id, SectionId { x: 2, y: 2 });
    assert!(section.items.contains(&PhysItem::Ball(idx)));
}

#[test]
fn test_add_ball_out_of_range_goes_to_sentinel() {
    let mut g = plinko_grid();
    let idx = g.add_ball(simple_ball(-10000 * SCALE, 0));
    assert_eq!(g.balls[idx].unwrap().unit_id, sentinel());
    assert!(g.out_of_bounds.items.contains(&PhysItem::Ball(idx)));
}

#[test]
fn test_cell_mapping_margin_and_floor() {
    // one cell of margin: a position slightly left of the window still maps
    // to the border cell; further out, the floor of the shifted coordinate
    // goes negative and resolves to the sentinel
    let mut g = plinko_grid();
    let border = g.add_ball(simple_ball(-25 * SCALE, 75 * SCALE));
    assert_eq!(g.balls[border].unwrap().unit_id, SectionId { x: 0, y: 2 });
    let outside = g.add_ball(simple_ball(-75 * SCALE, 75 * SCALE));
    assert_eq!(g.balls[outside].unwrap().unit_id, sentinel());
}

#[test]
fn test_move_ball_reconciles_cell() {
    let mut g = plinko_grid();
    let idx = g.add_ball(simple_ball(75 * SCALE, 75 * SCALE));
    // the ball drifts into the next column; the cache is stale until the
    // grid reconciles it
    let mut b = g.balls[idx].unwrap();
    b.position = Vec2 { x: 125 * SCALE, y: 75 * SCALE };
    g.balls[idx] = Some(b);
    assert_eq!(g.balls[idx].unwrap().unit_id, SectionId { x: 2, y: 2 });
    g.move_ball(idx);
    assert_eq!(g.balls[idx].unwrap().unit_id, SectionId { x: 3, y: 2 });
    assert!(!g.get_section(2, 2).items.contains(&PhysItem::Ball(idx)));
    assert!(g.get_section(3, 2).items.contains(&PhysItem::Ball(idx)));
}

#[test]
fn test_move_ball_twice_is_idempotent() {
    let mut g = plinko_grid();
    let idx = g.add_ball(simple_ball(75 * SCALE, 75 * SCALE));
    let mut b = g.balls[idx].unwrap();
    b.position = Vec2 { x: 125 * SCALE, y: 125 * SCALE };
    g.balls[idx] = Some(b);
    g.move_ball(idx);
    let cached = g.balls[idx].unwrap().unit_id;
    let items_before = g.get_section(3, 3).items.clone();
    // a second reconciliation with no movement in between changes nothing
    g.move_ball(idx);
    assert_eq!(g.balls[idx].unwrap().unit_id, cached);
    assert_eq!(g.get_section(3, 3).items, items_before);
    assert_eq!(g.ball_cnt, 1);
}
