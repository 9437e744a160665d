//! Physics bodies: dynamic balls and static wall segments, with Euler
//! integration and impulse-based collision response.

use vstd::prelude::*;
use crate::library::Vec2;
use crate::library::coord_range;
use crate::library::unit_range;
use crate::library::cap_coord;
use crate::library::cap_coord_fp;
use crate::library::dot_spec;
use crate::library::mag_spec;
use crate::library::normalize_spec;
use crate::library::perp;
use crate::library::sub_spec;
use crate::library::find_normal_spec;
use crate::library::dot;
use crate::library::get_magnitude;
use crate::library::normalize;
use crate::library::find_vector;
use crate::library::find_normal;
use crate::num::abs_i;
use crate::num::div_t;
use crate::num::clamp_s;
use crate::num::div_fp;
use crate::num::abs_fp;
use crate::num::clamp_fp;
use crate::num::lemma_abs_mul;
use crate::num::lemma_div_t_bound;
use crate::library::lemma_dot_bound;
use crate::grid::SectionId;
use crate::SCALE;
use crate::COORD_LIMIT;
use crate::SIZE_LIMIT;

verus! {

/// Largest velocity component kept by the per-step clamp, in ticks per second.
pub const MAX_VELOCITY: i64 = 2000 * SCALE;

/// Smallest velocity component kept by the per-step clamp.
pub const MIN_VELOCITY: i64 = -2000 * SCALE;

/// Horizontal component of the global gravity acceleration, in ticks/s^2.
pub const GRAVITY_X: i64 = 0;

/// Vertical component of the global gravity acceleration, in ticks/s^2.
pub const GRAVITY_Y: i64 = 400 * SCALE;

/// Largest accepted frame delta, in ticks of a second.
pub const DT_LIMIT: i64 = 0x40_0000;

/// Largest accepted force component, in ticks/s^2.
pub const FORCE_LIMIT: i64 = 0x400_0000;

/// Default ball radius and wall width, in world units.
pub const DEFAULT_SIZE: i64 = 10;

/// Default friction and restitution coefficient (0.1, in `SCALE` ticks).
pub const DEFAULT_COEFF: i64 = 102;

/// A reference to a body stored in a grid cell, tagged by kind.
#[derive(Clone, Copy, PartialEq, Eq, Structural, Debug)]
pub enum PhysItem {
    /// A wall, by its identifier.
    Wall(usize),
    /// A ball, by its identifier.
    Ball(usize),
}

/// A scalar default for an optional argument.
pub open spec fn opt_i64(o: Option<i64>, d: i64) -> i64 {
    match o {
        Some(v) => v,
        None => d,
    }
}

/// A vector default for an optional argument.
pub open spec fn opt_vec2(o: Option<Vec2>, d: Vec2) -> Vec2 {
    match o {
        Some(v) => v,
        None => d,
    }
}

/// A static line-segment body.  The direction, normal and length fields are
/// derived from the endpoints at construction and never recomputed.
#[derive(Clone, Copy)]
pub struct Wall {
    /// Identifier assigned by the grid.
    pub id: usize,
    /// First endpoint, in ticks.
    pub a: Vec2,
    /// Second endpoint, in ticks.
    pub b: Vec2,
    /// Visual width in world units; half of it widens the collision band.
    pub width: i64,
    /// Unit direction from `a` to `b`, in `SCALE` ticks.
    pub dir: Vec2,
    /// Segment length in ticks.
    pub length: i64,
    /// Unit normal (direction rotated 90 degrees counter-clockwise).
    pub nvec: Vec2,
    /// Friction coefficient in `SCALE` ticks.
    pub friction: i64,
    /// Restitution coefficient in `SCALE` ticks.
    pub restitution: i64,
}

impl Wall {
    /// The derived fields agree with the endpoints.
    pub open spec fn derived_ok(&self) -> bool {
        &&& self.dir == normalize_spec(sub_spec(self.a, self.b))
        &&& self.nvec == find_normal_spec(self.a, self.b)
        &&& self.length == mag_spec(sub_spec(self.a, self.b))
    }

    /// Well-formedness: endpoints and coefficients in range, derived fields
    /// consistent.
    pub open spec fn wf(&self) -> bool {
        &&& coord_range(self.a)
        &&& coord_range(self.b)
        &&& 0 <= self.width <= SIZE_LIMIT
        &&& 0 <= self.friction <= SCALE
        &&& 0 <= self.restitution <= SCALE
        &&& self.derived_ok()
    }

    /// Creates a new wall from two endpoints; omitted arguments take the
    /// default width and coefficients.
    pub fn new(
        a: Vec2,
        b: Vec2,
        width: Option<i64>,
        friction: Option<i64>,
        restitution: Option<i64>,
    ) -> (r: Wall)
        requires
            coord_range(a),
            coord_range(b),
            0 <= opt_i64(width, DEFAULT_SIZE) <= SIZE_LIMIT,
            0 <= opt_i64(friction, DEFAULT_COEFF) <= SCALE,
            0 <= opt_i64(restitution, DEFAULT_COEFF) <= SCALE,
        ensures
            r.wf(),
            r.id == 0,
            r.a == a,
            r.b == b,
            r.width == opt_i64(width, DEFAULT_SIZE),
            r.friction == opt_i64(friction, DEFAULT_COEFF),
            r.restitution == opt_i64(restitution, DEFAULT_COEFF),
    {
        let vector = find_vector(a, b);
        let w: i64 = match width {
            Some(v) => v,
            None => DEFAULT_SIZE,
        };
        let f: i64 = match friction {
            Some(v) => v,
            None => DEFAULT_COEFF,
        };
        let rest: i64 = match restitution {
            Some(v) => v,
            None => DEFAULT_COEFF,
        };
        Wall {
            id: 0,
            a,
            b,
            width: w,
            dir: normalize(vector),
            length: get_magnitude(vector),
            nvec: find_normal(a, b),
            friction: f,
            restitution: rest,
        }
    }
}

/// A well-formed wall has unit direction and normal vectors and a length
/// below `2^32` ticks.
pub proof fn lemma_wall_units(w: Wall)
    requires
        w.wf(),
    ensures
        unit_range(w.dir),
        unit_range(w.nvec),
        0 <= w.length < 0x1_0000_0000,
{
    let d = sub_spec(w.a, w.b);
    crate::library::lemma_normalize_unit(d);
    crate::library::lemma_mag_bound(d);
}

/// The ball after an impulse-based collision with a wall.  The contact is the
/// segment face when the ball's projection onto the wall line falls within
/// the segment, else the nearer endpoint.  No effect when the ball is farther
/// from the contact than the collision band, or moving away from it on its
/// own side.  Otherwise the velocity is rebuilt from the reversed normal
/// component scaled by the summed restitution and the tangential component
/// scaled by one minus the summed friction — both projected onto the wall's
/// own direction and normal — and the ball is pushed out of the surface by
/// the penetration depth along the contact normal.
pub open spec fn wall_collision_spec(b: Ball, w: Wall) -> Ball {
    let vec_a = sub_spec(w.a, b.position);
    let pos_along = div_t(dot_spec(vec_a, w.dir), SCALE as int);
    let past_end = pos_along > w.length;
    let vec = if past_end {
        sub_spec(w.b, b.position)
    } else {
        vec_a
    };
    let endpoint = pos_along < 0 || past_end;
    let nv = if endpoint {
        normalize_spec(vec)
    } else {
        w.nvec
    };
    let tv = if endpoint {
        perp(normalize_spec(vec))
    } else {
        w.dir
    };
    let dist = if endpoint {
        mag_spec(vec)
    } else {
        div_t(dot_spec(vec, w.nvec), SCALE as int)
    };
    let min_dist = if endpoint {
        b.radius * SCALE
    } else {
        (b.radius + div_t(w.width as int, 2)) * SCALE
    };
    if abs_i(dist) > min_dist {
        b
    } else {
        let n_vel = div_t(dot_spec(b.velocity, nv), SCALE as int);
        if (n_vel < 0 && dist < 0) || (n_vel > 0 && dist > 0) {
            b
        } else {
            let t_vel = div_t(dot_spec(b.velocity, tv), SCALE as int);
            let total_restitution = w.restitution + b.restitution;
            let total_friction = w.friction + b.friction;
            let x_n = div_t(div_t(-n_vel * w.nvec.x, SCALE as int) * total_restitution, SCALE as int);
            let y_n = div_t(div_t(-n_vel * w.nvec.y, SCALE as int) * total_restitution, SCALE as int);
            let x_t = div_t(div_t(t_vel * w.dir.x, SCALE as int) * (SCALE - total_friction), SCALE as int);
            let y_t = div_t(div_t(t_vel * w.dir.y, SCALE as int) * (SCALE - total_friction), SCALE as int);
            let vel = Vec2 { x: cap_coord(x_n + x_t) as i64, y: cap_coord(y_n + y_t) as i64 };
            let penetration = min_dist - abs_i(dist);
            if penetration > 0 {
                let dx = div_t(nv.x * penetration, SCALE as int);
                let dy = div_t(nv.y * penetration, SCALE as int);
                let pos = if dist >= 0 {
                    Vec2 {
                        x: cap_coord(b.position.x + dx) as i64,
                        y: cap_coord(b.position.y + dy) as i64,
                    }
                } else {
                    Vec2 {
                        x: cap_coord(b.position.x - dx) as i64,
                        y: cap_coord(b.position.y - dy) as i64,
                    }
                };
                Ball { velocity: vel, position: pos, ..b }
            } else {
                Ball { velocity: vel, ..b }
            }
        }
    }
}

/// A dynamic circular body.
#[derive(Clone, Copy)]
pub struct Ball {
    /// Identifier assigned by the grid.
    pub id: usize,
    /// Centre position, in ticks.
    pub position: Vec2,
    /// Velocity, in ticks per second.
    pub velocity: Vec2,
    /// Radius in world units.
    pub radius: i64,
    /// Friction coefficient in `SCALE` ticks.
    pub friction: i64,
    /// Restitution coefficient in `SCALE` ticks.
    pub restitution: i64,
    /// Cached id of the grid cell this ball occupies; maintained by the grid.
    pub unit_id: SectionId,
}

/// Position advanced by `velocity * dt`, then velocity clamped to the fixed
/// symmetric range.  Coordinates saturate at the stored-coordinate limit.
pub open spec fn move_ball_spec(b: Ball, dt: int) -> Ball {
    let px = cap_coord(b.position.x + div_t(b.velocity.x * dt, SCALE as int));
    let py = cap_coord(b.position.y + div_t(b.velocity.y * dt, SCALE as int));
    let vx = clamp_s(b.velocity.x as int, MIN_VELOCITY as int, MAX_VELOCITY as int);
    let vy = clamp_s(b.velocity.y as int, MIN_VELOCITY as int, MAX_VELOCITY as int);
    Ball {
        position: Vec2 { x: px as i64, y: py as i64 },
        velocity: Vec2 { x: vx as i64, y: vy as i64 },
        ..b
    }
}

/// Velocity advanced by `force * dt`, saturating at the stored range.
pub open spec fn apply_force_spec(b: Ball, force: Vec2, dt: int) -> Ball {
    let vx = cap_coord(b.velocity.x + div_t(force.x * dt, SCALE as int));
    let vy = cap_coord(b.velocity.y + div_t(force.y * dt, SCALE as int));
    Ball { velocity: Vec2 { x: vx as i64, y: vy as i64 }, ..b }
}

/// The pair of balls after an impulse-based ball-ball collision: no effect
/// when the centres are farther apart than the radii sum or when the balls
/// are separating; otherwise the normal velocity components are replaced by
/// the equal-and-opposite average normal speed scaled by the summed
/// restitution, the tangential components are kept scaled by one minus the
/// summed friction, and the overlap is resolved by pushing each ball half
/// the penetration apart along the collision normal.
pub open spec fn ball_collision_spec(s: Ball, o: Ball) -> (Ball, Ball) {
    let vec = sub_spec(o.position, s.position);
    let dist = mag_spec(vec);
    let min_dist = (s.radius + o.radius) * SCALE;
    if dist > min_dist {
        (s, o)
    } else {
        let nv = normalize_spec(vec);
        let tv = perp(nv);
        let n_vel_self = div_t(dot_spec(s.velocity, nv), SCALE as int);
        let n_vel_other = div_t(dot_spec(o.velocity, nv), SCALE as int);
        if n_vel_self - n_vel_other > 0 {
            (s, o)
        } else {
            let t_vel_self = div_t(dot_spec(s.velocity, tv), SCALE as int);
            let t_vel_other = div_t(dot_spec(o.velocity, tv), SCALE as int);
            let avg_n_vel = div_t(abs_i(n_vel_self) + abs_i(n_vel_other), 2);
            let total_restitution = s.restitution + o.restitution;
            let total_friction = s.friction + o.friction;
            let x_n = div_t(div_t(avg_n_vel * nv.x, SCALE as int) * total_restitution, SCALE as int);
            let y_n = div_t(div_t(avg_n_vel * nv.y, SCALE as int) * total_restitution, SCALE as int);
            let x_t_self = div_t(div_t(t_vel_self * tv.x, SCALE as int) * (SCALE - total_friction), SCALE as int);
            let y_t_self = div_t(div_t(t_vel_self * tv.y, SCALE as int) * (SCALE - total_friction), SCALE as int);
            let x_t_other = div_t(div_t(t_vel_other * tv.x, SCALE as int) * (SCALE - total_friction), SCALE as int);
            let y_t_other = div_t(div_t(t_vel_other * tv.y, SCALE as int) * (SCALE - total_friction), SCALE as int);
            let s_vel = Vec2 { x: cap_coord(x_n + x_t_self) as i64, y: cap_coord(y_n + y_t_self) as i64 };
            let o_vel = Vec2 { x: cap_coord(-x_n + x_t_other) as i64, y: cap_coord(-y_n + y_t_other) as i64 };
            let penetration = min_dist - dist;
            if penetration > 0 {
                let dx = div_t(div_t(nv.x * penetration, SCALE as int), 2);
                let dy = div_t(div_t(nv.y * penetration, SCALE as int), 2);
                let s_pos = Vec2 {
                    x: cap_coord(s.position.x + dx) as i64,
                    y: cap_coord(s.position.y + dy) as i64,
                };
                let o_pos = Vec2 {
                    x: cap_coord(o.position.x - dx) as i64,
                    y: cap_coord(o.position.y - dy) as i64,
                };
                (
                    Ball { velocity: s_vel, position: s_pos, ..s },
                    Ball { velocity: o_vel, position: o_pos, ..o },
                )
            } else {
                (Ball { velocity: s_vel, ..s }, Ball { velocity: o_vel, ..o })
            }
        }
    }
}

impl Ball {
    /// Well-formedness: position, velocity, radius and coefficients in range.
    pub open spec fn wf(&self) -> bool {
        &&& coord_range(self.position)
        &&& coord_range(self.velocity)
        &&& 0 <= self.radius <= SIZE_LIMIT
        &&& 0 <= self.friction <= SCALE
        &&& 0 <= self.restitution <= SCALE
    }

    /// Creates a new ball at the given position; omitted arguments take a
    /// zero velocity and the default radius and coefficients.
    pub fn new(
        position: Vec2,
        velocity: Option<Vec2>,
        radius: Option<i64>,
        friction: Option<i64>,
        restitution: Option<i64>,
    ) -> (r: Ball)
        requires
            coord_range(position),
            coord_range(opt_vec2(velocity, Vec2 { x: 0, y: 0 })),
            0 <= opt_i64(radius, DEFAULT_SIZE) <= SIZE_LIMIT,
            0 <= opt_i64(friction, DEFAULT_COEFF) <= SCALE,
            0 <= opt_i64(restitution, DEFAULT_COEFF) <= SCALE,
        ensures
            r.wf(),
            r.id == 0,
            r.position == position,
            r.velocity == opt_vec2(velocity, Vec2 { x: 0, y: 0 }),
            r.radius == opt_i64(radius, DEFAULT_SIZE),
            r.friction == opt_i64(friction, DEFAULT_COEFF),
            r.restitution == opt_i64(restitution, DEFAULT_COEFF),
            r.unit_id == (SectionId { x: 0, y: 0 }),
    {
        let v: Vec2 = match velocity {
            Some(v) => v,
            None => Vec2 { x: 0, y: 0 },
        };
        let rad: i64 = match radius {
            Some(v) => v,
            None => DEFAULT_SIZE,
        };
        let f: i64 = match friction {
            Some(v) => v,
            None => DEFAULT_COEFF,
        };
        let rest: i64 = match restitution {
            Some(v) => v,
            None => DEFAULT_COEFF,
        };
        Ball {
            id: 0,
            position,
            velocity: v,
            radius: rad,
            friction: f,
            restitution: rest,
            unit_id: SectionId { x: 0, y: 0 },
        }
    }

    /// Advances the position by `velocity * dt` and clamps the velocity; a
    /// missing delta counts as one second.
    pub fn move_ball(&mut self, delta: Option<i64>)
        requires
            old(self).wf(),
            0 <= opt_i64(delta, SCALE) <= DT_LIMIT,
        ensures
            *final(self) == move_ball_spec(*old(self), opt_i64(delta, SCALE) as int),
            final(self).wf(),
    {
        let dt: i64 = match delta {
            Some(v) => v,
            None => SCALE,
        };
        proof {
            lemma_abs_mul(self.velocity.x as int, dt as int, COORD_LIMIT as int, DT_LIMIT as int);
            lemma_abs_mul(self.velocity.y as int, dt as int, COORD_LIMIT as int, DT_LIMIT as int);
        }
        let sx: i64 = div_fp(self.velocity.x * dt, SCALE);
        let sy: i64 = div_fp(self.velocity.y * dt, SCALE);
        let new_x: i64 = cap_coord_fp(self.position.x + sx);
        let new_y: i64 = cap_coord_fp(self.position.y + sy);
        let clamped_vx: i64 = clamp_fp(self.velocity.x, MIN_VELOCITY, MAX_VELOCITY);
        let clamped_vy: i64 = clamp_fp(self.velocity.y, MIN_VELOCITY, MAX_VELOCITY);
        self.position = Vec2 { x: new_x, y: new_y };
        self.velocity = Vec2 { x: clamped_vx, y: clamped_vy };
    }

    /// Adds `force * dt` to the velocity; a missing delta counts as one
    /// second.
    pub fn apply_force(&mut self, force: Vec2, delta: Option<i64>)
        requires
            old(self).wf(),
            abs_i(force.x as int) <= FORCE_LIMIT,
            abs_i(force.y as int) <= FORCE_LIMIT,
            0 <= opt_i64(delta, SCALE) <= DT_LIMIT,
        ensures
            *final(self) == apply_force_spec(*old(self), force, opt_i64(delta, SCALE) as int),
            final(self).wf(),
    {
        let dt: i64 = match delta {
            Some(v) => v,
            None => SCALE,
        };
        proof {
            lemma_abs_mul(force.x as int, dt as int, FORCE_LIMIT as int, DT_LIMIT as int);
            lemma_abs_mul(force.y as int, dt as int, FORCE_LIMIT as int, DT_LIMIT as int);
        }
        let fx: i64 = div_fp(force.x * dt, SCALE);
        let fy: i64 = div_fp(force.y * dt, SCALE);
        let new_x: i64 = cap_coord_fp(self.velocity.x + fx);
        let new_y: i64 = cap_coord_fp(self.velocity.y + fy);
        self.velocity = Vec2 { x: new_x, y: new_y };
    }

    /// Resolves a collision between this ball and a wall, mutating the ball.
    /// The response projects onto the wall's own direction and normal even
    /// for endpoint contacts, as an accepted simplification at corners.
    pub fn wall_collision(&mut self, wall: &Wall)
        requires
            old(self).wf(),
            wall.wf(),
        ensures
            *final(self) == wall_collision_spec(*old(self), *wall),
            final(self).wf(),
            final(self).id == old(self).id,
            final(self).unit_id == old(self).unit_id,
            final(self).radius == old(self).radius,
            final(self).friction == old(self).friction,
            final(self).restitution == old(self).restitution,
    {
        proof {
            lemma_wall_units(*wall);
        }
        let mut vec: Vec2 = find_vector(wall.a, self.position);
        proof {
            lemma_dot_bound(vec, wall.dir, 0x8000_0000, SCALE as int);
            lemma_div_t_bound(dot_spec(vec, wall.dir), SCALE as int, 0x1_0000_0000);
        }
        let position: i64 = div_fp(dot(vec, wall.dir), SCALE);
        let nv: Vec2;
        let tv: Vec2;
        let dist: i64;
        let min_dist: i64;
        if position > wall.length {
            vec = find_vector(wall.b, self.position);
        }
        if position < 0 || position > wall.length {
            nv = normalize(vec);
            tv = Vec2 { x: -nv.y, y: nv.x };
            dist = get_magnitude(vec);
            min_dist = self.radius * SCALE;
        } else {
            nv = wall.nvec;
            tv = wall.dir;
            proof {
                lemma_dot_bound(vec, wall.nvec, 0x8000_0000, SCALE as int);
                lemma_div_t_bound(dot_spec(vec, wall.nvec), SCALE as int, 0x1_0000_0000);
            }
            dist = div_fp(dot(vec, wall.nvec), SCALE);
            min_dist = (self.radius + wall.width / 2) * SCALE;
        }
        if abs_fp(dist) > min_dist {
            return ;
        }
        proof {
            lemma_dot_bound(old(self).velocity, nv, COORD_LIMIT as int, SCALE as int);
            lemma_dot_bound(old(self).velocity, tv, COORD_LIMIT as int, SCALE as int);
        }
        let dn: i64 = dot(self.velocity, nv);
        proof {
            lemma_div_t_bound(dn as int, SCALE as int, 0x1_0000_0000);
        }
        let n_vel: i64 = div_fp(dn, SCALE);
        if (n_vel < 0 && dist < 0) || (n_vel > 0 && dist > 0) {
            return ;
        }
        let tangent_dot: i64 = dot(self.velocity, tv);
        proof {
            lemma_div_t_bound(tangent_dot as int, SCALE as int, 0x1_0000_0000);
        }
        let t_vel: i64 = div_fp(tangent_dot, SCALE);
        let total_restitution: i64 = wall.restitution + self.restitution;
        let total_friction: i64 = wall.friction + self.friction;
        proof {
            lemma_abs_mul(-n_vel as int, wall.nvec.x as int, 0x1_0000_0000, SCALE as int);
            lemma_abs_mul(-n_vel as int, wall.nvec.y as int, 0x1_0000_0000, SCALE as int);
            lemma_abs_mul(t_vel as int, wall.dir.x as int, 0x1_0000_0000, SCALE as int);
            lemma_abs_mul(t_vel as int, wall.dir.y as int, 0x1_0000_0000, SCALE as int);
        }
        let pnx: i64 = -n_vel * wall.nvec.x;
        let pny: i64 = -n_vel * wall.nvec.y;
        let ptx: i64 = t_vel * wall.dir.x;
        let pty: i64 = t_vel * wall.dir.y;
        proof {
            lemma_div_t_bound(pnx as int, SCALE as int, 0x1_0000_0000);
            lemma_div_t_bound(pny as int, SCALE as int, 0x1_0000_0000);
            lemma_div_t_bound(ptx as int, SCALE as int, 0x1_0000_0000);
            lemma_div_t_bound(pty as int, SCALE as int, 0x1_0000_0000);
        }
        let xn_i: i64 = div_fp(pnx, SCALE);
        let yn_i: i64 = div_fp(pny, SCALE);
        let xt_i: i64 = div_fp(ptx, SCALE);
        let yt_i: i64 = div_fp(pty, SCALE);
        proof {
            lemma_abs_mul(xn_i as int, total_restitution as int, 0x1_0000_0000, 2048);
            lemma_abs_mul(yn_i as int, total_restitution as int, 0x1_0000_0000, 2048);
            lemma_abs_mul(xt_i as int, (SCALE - total_friction) as int, 0x1_0000_0000, 2048);
            lemma_abs_mul(yt_i as int, (SCALE - total_friction) as int, 0x1_0000_0000, 2048);
        }
        let x_n: i64 = div_fp(xn_i * total_restitution, SCALE);
        let y_n: i64 = div_fp(yn_i * total_restitution, SCALE);
        let x_t: i64 = div_fp(xt_i * (SCALE - total_friction), SCALE);
        let y_t: i64 = div_fp(yt_i * (SCALE - total_friction), SCALE);
        self.velocity = Vec2 { x: cap_coord_fp(x_n + x_t), y: cap_coord_fp(y_n + y_t) };
        let penetration: i64 = min_dist - abs_fp(dist);
        if penetration > 0 {
            proof {
                lemma_abs_mul(nv.x as int, penetration as int, SCALE as int, 0x1_0000_0000);
                lemma_abs_mul(nv.y as int, penetration as int, SCALE as int, 0x1_0000_0000);
                lemma_div_t_bound(nv.x * penetration, SCALE as int, 0x1_0000_0000);
                lemma_div_t_bound(nv.y * penetration, SCALE as int, 0x1_0000_0000);
            }
            let dx: i64 = div_fp(nv.x * penetration, SCALE);
            let dy: i64 = div_fp(nv.y * penetration, SCALE);
            if dist >= 0 {
                self.position = Vec2 {
                    x: cap_coord_fp(self.position.x + dx),
                    y: cap_coord_fp(self.position.y + dy),
                };
            } else {
                self.position = Vec2 {
                    x: cap_coord_fp(self.position.x - dx),
                    y: cap_coord_fp(self.position.y - dy),
                };
            }
        }
    }

    /// Resolves a collision between this ball and another, mutating both.
    /// Balls farther apart than their radii sum, or moving apart along the
    /// collision normal, are left untouched.  Coincident centres degrade to a
    /// zero collision normal, which zeroes both velocities and moves neither.
    pub fn ball_collision(&mut self, other: &mut Ball)
        requires
            old(self).wf(),
            old(other).wf(),
        ensures
            *final(self) == ball_collision_spec(*old(self), *old(other)).0,
            *final(other) == ball_collision_spec(*old(self), *old(other)).1,
            final(self).wf(),
            final(other).wf(),
            final(self).id == old(self).id,
            final(self).unit_id == old(self).unit_id,
            final(self).radius == old(self).radius,
            final(self).friction == old(self).friction,
            final(self).restitution == old(self).restitution,
            final(other).id == old(other).id,
            final(other).unit_id == old(other).unit_id,
            final(other).radius == old(other).radius,
            final(other).friction == old(other).friction,
            final(other).restitution == old(other).restitution,
            mag_spec(sub_spec(old(other).position, old(self).position)) > (old(self).radius
                + old(other).radius) * SCALE ==> *final(self) == *old(self) && *final(other)
                == *old(other),
            old(self).position == old(other).position ==> final(self).position == old(
                self,
            ).position && final(other).position == old(other).position && final(self).velocity
                == (Vec2 { x: 0, y: 0 }) && final(other).velocity == (Vec2 { x: 0, y: 0 }),
    {
        proof {
            crate::num::lemma_div_t_zero(SCALE as int);
            crate::num::lemma_div_t_zero(2);
            assert(crate::num::sqrt_floor(0nat) == 0);
        }
        let vec: Vec2 = find_vector(other.position, self.position);
        let dist: i64 = get_magnitude(vec);
        let min_dist: i64 = (self.radius + other.radius) * SCALE;
        if dist > min_dist {
            proof {
                if old(self).position == old(other).position {
                    assert(vec == Vec2 { x: 0i64, y: 0i64 });
                    crate::num::lemma_mul_zero(vec.x as int, vec.x as int);
                    crate::num::lemma_mul_zero(vec.y as int, vec.y as int);
                    assert(mag_spec(vec) == 0);
                    assert(false);
                }
            }
            return ;
        }
        let nv: Vec2 = normalize(vec);
        let tv: Vec2 = Vec2 { x: -nv.y, y: nv.x };
        proof {
            lemma_dot_bound(old(self).velocity, nv, COORD_LIMIT as int, SCALE as int);
            lemma_dot_bound(old(other).velocity, nv, COORD_LIMIT as int, SCALE as int);
            lemma_dot_bound(old(self).velocity, tv, COORD_LIMIT as int, SCALE as int);
            lemma_dot_bound(old(other).velocity, tv, COORD_LIMIT as int, SCALE as int);
        }
        let dns: i64 = dot(self.velocity, nv);
        let dno: i64 = dot(other.velocity, nv);
        let dts: i64 = dot(self.velocity, tv);
        let dto: i64 = dot(other.velocity, tv);
        proof {
            lemma_div_t_bound(dns as int, SCALE as int, 0x1_0000_0000);
            lemma_div_t_bound(dno as int, SCALE as int, 0x1_0000_0000);
            lemma_div_t_bound(dts as int, SCALE as int, 0x1_0000_0000);
            lemma_div_t_bound(dto as int, SCALE as int, 0x1_0000_0000);
        }
        let n_vel_self: i64 = div_fp(dns, SCALE);
        let n_vel_other: i64 = div_fp(dno, SCALE);
        if n_vel_self - n_vel_other > 0 {
            proof {
                if old(self).position == old(other).position {
                    assert(vec == Vec2 { x: 0i64, y: 0i64 });
                    crate::num::lemma_mul_zero(vec.x as int, vec.x as int);
                    crate::num::lemma_mul_zero(vec.y as int, vec.y as int);
                    assert(mag_spec(vec) == 0);
                    assert(nv == Vec2 { x: 0i64, y: 0i64 });
                    crate::num::lemma_mul_zero(old(self).velocity.x as int, nv.x as int);
                    crate::num::lemma_mul_zero(old(self).velocity.y as int, nv.y as int);
                    crate::num::lemma_mul_zero(old(other).velocity.x as int, nv.x as int);
                    crate::num::lemma_mul_zero(old(other).velocity.y as int, nv.y as int);
                    assert(dns == 0);
                    assert(n_vel_self == 0);
                    assert(n_vel_other == 0);
                    assert(false);
                }
            }
            return ;
        }
        let t_vel_self: i64 = div_fp(dts, SCALE);
        let t_vel_other: i64 = div_fp(dto, SCALE);
        let avg_n_vel: i64 = div_fp(abs_fp(n_vel_self) + abs_fp(n_vel_other), 2);
        let total_restitution: i64 = self.restitution + other.restitution;
        let total_friction: i64 = self.friction + other.friction;
        proof {
            lemma_abs_mul(avg_n_vel as int, nv.x as int, 0x2_0000_0000, SCALE as int);
            lemma_abs_mul(avg_n_vel as int, nv.y as int, 0x2_0000_0000, SCALE as int);
            lemma_abs_mul(t_vel_self as int, tv.x as int, 0x1_0000_0000, SCALE as int);
            lemma_abs_mul(t_vel_self as int, tv.y as int, 0x1_0000_0000, SCALE as int);
            lemma_abs_mul(t_vel_other as int, tv.x as int, 0x1_0000_0000, SCALE as int);
            lemma_abs_mul(t_vel_other as int, tv.y as int, 0x1_0000_0000, SCALE as int);
        }
        let pn_x: i64 = avg_n_vel * nv.x;
        let pn_y: i64 = avg_n_vel * nv.y;
        let pts_x: i64 = t_vel_self * tv.x;
        let pts_y: i64 = t_vel_self * tv.y;
        let pto_x: i64 = t_vel_other * tv.x;
        let pto_y: i64 = t_vel_other * tv.y;
        proof {
            lemma_div_t_bound(pn_x as int, SCALE as int, 0x2_0000_0000);
            lemma_div_t_bound(pn_y as int, SCALE as int, 0x2_0000_0000);
            lemma_div_t_bound(pts_x as int, SCALE as int, 0x1_0000_0000);
            lemma_div_t_bound(pts_y as int, SCALE as int, 0x1_0000_0000);
            lemma_div_t_bound(pto_x as int, SCALE as int, 0x1_0000_0000);
            lemma_div_t_bound(pto_y as int, SCALE as int, 0x1_0000_0000);
        }
        let xn_i: i64 = div_fp(pn_x, SCALE);
        let yn_i: i64 = div_fp(pn_y, SCALE);
        let xts_i: i64 = div_fp(pts_x, SCALE);
        let yts_i: i64 = div_fp(pts_y, SCALE);
        let xto_i: i64 = div_fp(pto_x, SCALE);
        let yto_i: i64 = div_fp(pto_y, SCALE);
        proof {
            lemma_abs_mul(xn_i as int, total_restitution as int, 0x2_0000_0000, 2048);
            lemma_abs_mul(yn_i as int, total_restitution as int, 0x2_0000_0000, 2048);
            lemma_abs_mul(xts_i as int, (SCALE - total_friction) as int, 0x1_0000_0000, 2048);
            lemma_abs_mul(yts_i as int, (SCALE - total_friction) as int, 0x1_0000_0000, 2048);
            lemma_abs_mul(xto_i as int, (SCALE - total_friction) as int, 0x1_0000_0000, 2048);
            lemma_abs_mul(yto_i as int, (SCALE - total_friction) as int, 0x1_0000_0000, 2048);
        }
        let x_n: i64 = div_fp(xn_i * total_restitution, SCALE);
        let y_n: i64 = div_fp(yn_i * total_restitution, SCALE);
        let x_t_self: i64 = div_fp(xts_i * (SCALE - total_friction), SCALE);
        let y_t_self: i64 = div_fp(yts_i * (SCALE - total_friction), SCALE);
        let x_t_other: i64 = div_fp(xto_i * (SCALE - total_friction), SCALE);
        let y_t_other: i64 = div_fp(yto_i * (SCALE - total_friction), SCALE);
        proof {
            if old(self).position == old(other).position {
                assert(vec == Vec2 { x: 0i64, y: 0i64 });
                crate::num::lemma_mul_zero(vec.x as int, vec.x as int);
                crate::num::lemma_mul_zero(vec.y as int, vec.y as int);
                assert(mag_spec(vec) == 0);
                assert(nv == Vec2 { x: 0i64, y: 0i64 });
                assert(tv == Vec2 { x: 0i64, y: 0i64 });
                crate::num::lemma_mul_zero(old(self).velocity.x as int, nv.x as int);
                crate::num::lemma_mul_zero(old(self).velocity.y as int, nv.y as int);
                crate::num::lemma_mul_zero(old(other).velocity.x as int, nv.x as int);
                crate::num::lemma_mul_zero(old(other).velocity.y as int, nv.y as int);
                assert(avg_n_vel == 0);
                crate::num::lemma_mul_zero(avg_n_vel as int, nv.x as int);
                crate::num::lemma_mul_zero(avg_n_vel as int, nv.y as int);
                crate::num::lemma_mul_zero(t_vel_self as int, tv.x as int);
                crate::num::lemma_mul_zero(t_vel_self as int, tv.y as int);
                crate::num::lemma_mul_zero(t_vel_other as int, tv.x as int);
                crate::num::lemma_mul_zero(t_vel_other as int, tv.y as int);
                assert(xn_i == 0 && yn_i == 0 && xts_i == 0 && yts_i == 0 && xto_i == 0 && yto_i
                    == 0);
                crate::num::lemma_mul_zero(total_restitution as int, xn_i as int);
                crate::num::lemma_mul_zero(total_restitution as int, yn_i as int);
                crate::num::lemma_mul_zero((SCALE - total_friction) as int, xts_i as int);
                crate::num::lemma_mul_zero((SCALE - total_friction) as int, yts_i as int);
                crate::num::lemma_mul_zero((SCALE - total_friction) as int, xto_i as int);
                crate::num::lemma_mul_zero((SCALE - total_friction) as int, yto_i as int);
                assert(x_n == 0 && y_n == 0 && x_t_self == 0 && y_t_self == 0 && x_t_other == 0
                    && y_t_other == 0);
            }
        }
        self.velocity = Vec2 { x: cap_coord_fp(x_n + x_t_self), y: cap_coord_fp(y_n + y_t_self) };
        other.velocity = Vec2 {
            x: cap_coord_fp(-x_n + x_t_other),
            y: cap_coord_fp(-y_n + y_t_other),
        };
        let penetration: i64 = min_dist - dist;
        if penetration > 0 {
            proof {
                lemma_abs_mul(nv.x as int, penetration as int, SCALE as int, 0x1_0000_0000);
                lemma_abs_mul(nv.y as int, penetration as int, SCALE as int, 0x1_0000_0000);
                if old(self).position == old(other).position {
                    crate::num::lemma_mul_zero(penetration as int, nv.x as int);
                    crate::num::lemma_mul_zero(penetration as int, nv.y as int);
                }
            }
            let dx: i64 = div_fp(div_fp(nv.x * penetration, SCALE), 2);
            let dy: i64 = div_fp(div_fp(nv.y * penetration, SCALE), 2);
            self.position = Vec2 {
                x: cap_coord_fp(self.position.x + dx),
                y: cap_coord_fp(self.position.y + dy),
            };
            other.position = Vec2 {
                x: cap_coord_fp(other.position.x - dx),
                y: cap_coord_fp(other.position.y - dy),
            };
        }
    }
}

} // verus!
