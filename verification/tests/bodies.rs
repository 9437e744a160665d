use rphys::items::{Ball, Wall, DEFAULT_COEFF, DEFAULT_SIZE, GRAVITY_Y, MAX_VELOCITY};
use rphys::library::Vec2;
use rphys::SCALE;

fn ball_at(x: i64, y: i64, vx: i64, vy: i64, restitution: i64, friction: i64) -> Ball {
    Ball::new(
        Vec2 { x, y },
        Some(Vec2 { x: vx, y: vy }),
        Some(10),
        Some(friction),
        Some(restitution),
    )
}

#[test]
fn test_ball_new_defaults() {
    let b = Ball::new(Vec2 { x: 5 * SCALE, y: 6 * SCALE }, None, None, None, None);
    assert_eq!(b.position, Vec2 { x: 5 * SCALE, y: 6 * SCALE });
    assert_eq!(b.velocity, Vec2 { x: 0, y: 0 });
    assert_eq!(b.radius, DEFAULT_SIZE);
    assert_eq!(b.friction, DEFAULT_COEFF);
    assert_eq!(b.restitution, DEFAULT_COEFF);
}

#[test]
fn test_wall_new_derived_fields() {
    let w = Wall::new(
        Vec2 { x: 0, y: 0 },
        Vec2 { x: 520 * SCALE, y: 0 },
        Some(10),
        Some(0),
        Some(256),
    );
    assert_eq!(w.dir, Vec2 { x: SCALE, y: 0 });
    assert_eq!(w.nvec, Vec2 { x: 0, y: SCALE });
    assert_eq!(w.length, 520 * SCALE);
    assert_eq!(w.width, 10);
}

#[test]
fn test_move_ball_advances_position() {
    let mut b = ball_at(0, 0, 1 * SCALE, 2 * SCALE, 102, 102);
    b.move_ball(Some(SCALE));
    assert_eq!(b.position, Vec2 { x: 1 * SCALE, y: 2 * SCALE });
    assert_eq!(b.velocity, Vec2 { x: 1 * SCALE, y: 2 * SCALE });
}

#[test]
fn test_move_ball_clamps_velocity() {
    let mut b = ball_at(0, 0, 3000 * SCALE, -3000 * SCALE, 102, 102);
    b.move_ball(Some(SCALE));
    // the position step uses the unclamped velocity, then the clamp applies
    assert_eq!(b.position, Vec2 { x: 3000 * SCALE, y: -3000 * SCALE });
    assert_eq!(b.velocity, Vec2 { x: MAX_VELOCITY, y: -MAX_VELOCITY });
}

#[test]
fn test_apply_force_gravity() {
    let mut b = ball_at(0, 0, 0, 0, 102, 102);
    b.apply_force(Vec2 { x: 0, y: GRAVITY_Y }, Some(SCALE / 2));
    assert_eq!(b.velocity, Vec2 { x: 0, y: GRAVITY_Y / 2 });
}

#[test]
fn test_ball_collision_apart_is_noop() {
    // centres 100 units apart, radii sum 20: no contact, nothing moves
    let mut a = ball_at(0, 0, 3 * SCALE, 0, 512, 0);
    let mut b = ball_at(100 * SCALE, 0, -3 * SCALE, 0, 512, 0);
    a.ball_collision(&mut b);
    assert_eq!(a.position, Vec2 { x: 0, y: 0 });
    assert_eq!(a.velocity, Vec2 { x: 3 * SCALE, y: 0 });
    assert_eq!(b.position, Vec2 { x: 100 * SCALE, y: 0 });
    assert_eq!(b.velocity, Vec2 { x: -3 * SCALE, y: 0 });
}

#[test]
fn test_ball_collision_coincident_centres() {
    // coincident centres degrade to a zero normal: velocities zero out and
    // neither ball moves, without any panic
    let mut a = ball_at(50 * SCALE, 50 * SCALE, 7 * SCALE, -2 * SCALE, 512, 0);
    let mut b = ball_at(50 * SCALE, 50 * SCALE, -4 * SCALE, 9 * SCALE, 512, 0);
    a.ball_collision(&mut b);
    assert_eq!(a.position, Vec2 { x: 50 * SCALE, y: 50 * SCALE });
    assert_eq!(b.position, Vec2 { x: 50 * SCALE, y: 50 * SCALE });
    assert_eq!(a.velocity, Vec2 { x: 0, y: 0 });
    assert_eq!(b.velocity, Vec2 { x: 0, y: 0 });
}

#[test]
fn test_ball_collision_head_on() {
    // equal speeds, total restitution 1.0, no friction: a full bounce, and
    // the overlap is split evenly
    let mut a = ball_at(0, 0, 100 * SCALE, 0, 512, 0);
    let mut b = ball_at(15 * SCALE, 0, -100 * SCALE, 0, 512, 0);
    a.ball_collision(&mut b);
    assert_eq!(a.velocity, Vec2 { x: -100 * SCALE, y: 0 });
    assert_eq!(b.velocity, Vec2 { x: 100 * SCALE, y: 0 });
    assert_eq!(a.position, Vec2 { x: -2560, y: 0 });
    assert_eq!(b.position, Vec2 { x: 15 * SCALE + 2560, y: 0 });
}

#[test]
fn test_ball_collision_separating_is_noop() {
    // touching but moving apart: the early exit leaves both unchanged
    let mut a = ball_at(0, 0, -50 * SCALE, 0, 512, 0);
    let mut b = ball_at(15 * SCALE, 0, 50 * SCALE, 0, 512, 0);
    a.ball_collision(&mut b);
    assert_eq!(a.velocity, Vec2 { x: -50 * SCALE, y: 0 });
    assert_eq!(b.velocity, Vec2 { x: 50 * SCALE, y: 0 });
    assert_eq!(a.position, Vec2 { x: 0, y: 0 });
    assert_eq!(b.position, Vec2 { x: 15 * SCALE, y: 0 });
}

#[test]
fn test_wall_collision_face_bounce() {
    // a ball falling onto a horizontal wall with total restitution 0.5 and
    // no friction: the vertical velocity flips and halves, and the ball is
    // pushed back to exact contact
    let wall = Wall::new(
        Vec2 { x: 0, y: 500 * SCALE },
        Vec2 { x: 520 * SCALE, y: 500 * SCALE },
        Some(10),
        Some(0),
        Some(256),
    );
    let mut b = ball_at(260 * SCALE, 490 * SCALE, 0, 300 * SCALE, 256, 0);
    b.wall_collision(&wall);
    assert_eq!(b.velocity, Vec2 { x: 0, y: -150 * SCALE });
    assert_eq!(b.position, Vec2 { x: 260 * SCALE, y: 485 * SCALE });
}

#[test]
fn test_wall_collision_too_far_is_noop() {
    let wall = Wall::new(
        Vec2 { x: 0, y: 500 * SCALE },
        Vec2 { x: 520 * SCALE, y: 500 * SCALE },
        Some(10),
        Some(0),
        Some(256),
    );
    let mut b = ball_at(260 * SCALE, 100 * SCALE, 0, 300 * SCALE, 256, 0);
    b.wall_collision(&wall);
    assert_eq!(b.velocity, Vec2 { x: 0, y: 300 * SCALE });
    assert_eq!(b.position, Vec2 { x: 260 * SCALE, y: 100 * SCALE });
}

#[test]
fn test_wall_collision_endpoint() {
    // a ball past the end of the segment collides with the endpoint when
    // within its radius of it
    let wall = Wall::new(
        Vec2 { x: 0, y: 0 },
        Vec2 { x: 100 * SCALE, y: 0 },
        Some(10),
        Some(0),
        Some(256),
    );
    // 8 units right of endpoint b, inside the radius of 10
    let mut b = ball_at(108 * SCALE, 0, -50 * SCALE, 0, 256, 0);
    b.wall_collision(&wall);
    // pushed out along the radial normal to exact contact; the response
    // projects onto the wall's own normal, an accepted corner simplification
    assert_eq!(b.position, Vec2 { x: 110 * SCALE, y: 0 });
    assert_eq!(b.velocity, Vec2 { x: 0, y: 25 * SCALE });
}
