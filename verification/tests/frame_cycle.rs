use rphys::grid::{Grid, SectionId};
use rphys::items::{Ball, Wall, GRAVITY_Y};
use rphys::library::Vec2;
use rphys::SCALE;

fn plinko_grid() -> Grid {
    Grid::new(50, 50, 520, 800)
}

fn ball_with(x: i64, y: i64, vx: i64, vy: i64, restitution: i64, friction: i64) -> Ball {
    Ball::new(
        Vec2 { x, y },
        Some(Vec2 { x: vx, y: vy }),
        Some(10),
        Some(friction),
        Some(restitution),
    )
}

#[test]
fn test_cleanup_keeps_settled_balls() {
    // no ball in the sentinel or the bottom row: the count is unchanged
    let mut g = plinko_grid();
    let idx = g.add_ball(ball_with(75 * SCALE, 75 * SCALE, 0, 0, 102, 102));
    g.cleanup();
    assert_eq!(g.ball_cnt, 1);
    assert!(g.balls[idx].is_some());
}

#[test]
fn test_cleanup_removes_two() {
    // one ball out of range and one in the bottom row: the count drops by
    // exactly two, and the bystander survives
    let mut g = plinko_grid();
    let keep = g.add_ball(ball_with(75 * SCALE, 75 * SCALE, 0, 0, 102, 102));
    let out = g.add_ball(ball_with(-10000 * SCALE, 0, 0, 0, 102, 102));
    let bottom = g.add_ball(ball_with(75 * SCALE, 820 * SCALE, 0, 0, 102, 102));
    assert_eq!(g.balls[bottom].unwrap().unit_id, SectionId { x: 2, y: 17 });
    assert_eq!(g.ball_cnt, 3);
    g.cleanup();
    assert_eq!(g.ball_cnt, 1);
    assert!(g.balls[keep].is_some());
    assert!(g.balls[out].is_none());
    assert!(g.balls[bottom].is_none());
    assert!(g.out_of_bounds.items.is_empty());
}

#[test]
fn test_cleanup_keeps_walls() {
    let mut g = plinko_grid();
    let w = g.add_wall(Wall::new(
        Vec2 { x: 0, y: 820 * SCALE },
        Vec2 { x: 520 * SCALE, y: 820 * SCALE },
        None,
        None,
        None,
    ));
    let bottom = g.add_ball(ball_with(75 * SCALE, 820 * SCALE, 0, 0, 102, 102));
    g.cleanup();
    assert!(g.balls[bottom].is_none());
    assert_eq!(g.walls.len(), 1);
    assert!(g.get_section(2, 17).items.contains(&rphys::items::PhysItem::Wall(w)));
}

#[test]
fn test_draw_frame_integrates_and_reconciles() {
    let mut g = plinko_grid();
    let idx = g.add_ball(ball_with(100 * SCALE, 100 * SCALE, 0, 100 * SCALE, 102, 102));
    assert_eq!(g.balls[idx].unwrap().unit_id, SectionId { x: 3, y: 3 });
    g.draw_frame(SCALE);
    let b = g.balls[idx].unwrap();
    // position advanced by one second of velocity, then gravity applied
    assert_eq!(b.position, Vec2 { x: 100 * SCALE, y: 200 * SCALE });
    assert_eq!(b.velocity, Vec2 { x: 0, y: 100 * SCALE + GRAVITY_Y });
    // the cached cell followed the ball
    assert_eq!(b.unit_id, SectionId { x: 3, y: 5 });
}

#[test]
fn test_handle_collisions_resolves_pair() {
    let mut g = plinko_grid();
    let a = g.add_ball(ball_with(100 * SCALE, 100 * SCALE, 100 * SCALE, 0, 512, 0));
    let b = g.add_ball(ball_with(115 * SCALE, 100 * SCALE, -100 * SCALE, 0, 512, 0));
    g.handle_collisions();
    let ba = g.balls[a].unwrap();
    let bb = g.balls[b].unwrap();
    assert_eq!(ba.velocity, Vec2 { x: -100 * SCALE, y: 0 });
    assert_eq!(bb.velocity, Vec2 { x: 100 * SCALE, y: 0 });
    assert_eq!(ba.position, Vec2 { x: 100 * SCALE - 2560, y: 100 * SCALE });
    assert_eq!(bb.position, Vec2 { x: 115 * SCALE + 2560, y: 100 * SCALE });
    assert_eq!(g.ball_cnt, 2);
}

#[test]
fn test_update_boxes_counts_finished_balls() {
    let mut g = plinko_grid();
    g.add_ball(ball_with(100 * SCALE, 820 * SCALE, 0, 0, 102, 102));
    g.add_ball(ball_with(75 * SCALE, 75 * SCALE, 0, 0, 102, 102));
    let mut boxes: Vec<i64> = vec![0; 13];
    g.update_boxes(&mut boxes, 40, 800);
    // only the ball below the threshold counts, in column 100 / 40 = 2
    for (i, v) in boxes.iter().enumerate() {
        assert_eq!(*v, if i == 2 { 1 } else { 0 });
    }
}

#[test]
fn test_move_ball_default_delta_is_one_second() {
    let mut b = ball_with(0, 0, 3 * SCALE, 4 * SCALE, 102, 102);
    b.move_ball(None);
    assert_eq!(b.position, Vec2 { x: 3 * SCALE, y: 4 * SCALE });
}

#[test]
fn test_many_frames_keep_grid_consistent() {
    // run a small board through many full frames and check the occupancy
    // invariant dynamically: each live ball is referenced from its cached
    // cell, and the live count matches the arena
    let mut g = plinko_grid();
    g.add_wall(Wall::new(
        Vec2 { x: 0, y: 0 },
        Vec2 { x: 0, y: 800 * SCALE },
        Some(20),
        None,
        None,
    ));
    g.add_wall(Wall::new(
        Vec2 { x: 520 * SCALE, y: 0 },
        Vec2 { x: 520 * SCALE, y: 800 * SCALE },
        Some(20),
        None,
        None,
    ));
    g.add_wall(Wall::new(
        Vec2 { x: 200 * SCALE, y: 380 * SCALE },
        Vec2 { x: 230 * SCALE, y: 410 * SCALE },
        None,
        None,
        None,
    ));
    let dt = SCALE / 60;
    let mut boxes: Vec<i64> = vec![0; 13];
    for frame in 0..240 {
        if frame % 60 == 0 {
            let x = (80 + 90 * (frame / 60)) * SCALE;
            g.add_ball(ball_with(x, 60 * SCALE, (frame - 120) * 1024, 0, 102, 102));
        }
        g.draw_frame(dt);
        g.update_boxes(&mut boxes, 40, 800);
        g.cleanup();
        for _ in 0..20 {
            g.handle_collisions();
        }
        let live = g.balls.iter().filter(|b| b.is_some()).count();
        assert_eq!(g.ball_cnt, live);
        for (k, slot) in g.balls.iter().enumerate() {
            if let Some(b) = slot {
                let id = b.unit_id;
                let items = if id.x == usize::MAX && id.y == usize::MAX {
                    &g.out_of_bounds.items
                } else {
                    &g.get_section(id.x as i64, id.y as i64).items
                };
                let refs = items
                    .iter()
                    .filter(|it| **it == rphys::items::PhysItem::Ball(k))
                    .count();
                assert_eq!(refs, 1);
            }
        }
    }
}

#[test]
fn test_plinko_drop_onto_wall() {
    // end to end: a ball dropped straight onto a horizontal wall, total
    // restitution 0.5 and no friction, has its vertical velocity flipped
    // toward half its impact speed and is pushed back out of the wall
    let mut g = plinko_grid();
    g.add_wall(Wall::new(
        Vec2 { x: 0, y: 500 * SCALE },
        Vec2 { x: 520 * SCALE, y: 500 * SCALE },
        Some(10),
        Some(0),
        Some(256),
    ));
    // a parked ball first, so that the dropped ball's identifier differs
    // from the wall's
    g.add_ball(ball_with(25 * SCALE, 25 * SCALE, 0, 0, 256, 0));
    let idx = g.add_ball(ball_with(260 * SCALE, 490 * SCALE, 0, 300 * SCALE, 256, 0));
    g.handle_collisions();
    let b = g.balls[idx].unwrap();
    assert_eq!(b.velocity, Vec2 { x: 0, y: -150 * SCALE });
    assert_eq!(b.position, Vec2 { x: 260 * SCALE, y: 485 * SCALE });
    // no penetration is left: the gap equals radius plus half the width
    assert_eq!(500 * SCALE - b.position.y, (10 + 5) * SCALE);
}
