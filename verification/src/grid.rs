//! The spatial-partitioning grid: uniform cells over the world rectangle, a
//! sentinel cell for out-of-range positions, and the per-frame orchestration
//! of integration, cleanup and collision resolution.
//!
//! Bodies are owned by identifier-keyed arenas (`Vec` indexed by the id);
//! cells hold lightweight `PhysItem` references.  The grid invariant states
//! that every live ball is referenced from exactly one cell — the one cached
//! on the ball — and from no other.

use vstd::prelude::*;
use crate::items::Ball;
use crate::items::Wall;
use crate::items::PhysItem;
use crate::library::Vec2;
use crate::library::coord_range;
use crate::library::sub_spec;
use crate::library::normalize;
use crate::library::find_vector;
use crate::library::lemma_normalize_zero;
use crate::num::abs_i;
use crate::num::div_t;
use crate::num::div_fp;
use crate::num::rem_fp;
use crate::num::clamp_fp;
use crate::SCALE;
use crate::COORD_LIMIT;

verus! {

/// Largest accepted cell width or height, in world units.
pub const UNIT_LIMIT: i64 = 0x10_0000;

/// Largest accepted number of cells along an axis.
pub const DIM_LIMIT: i64 = 0x10_0000;

/// Coordinates of one grid cell; `usize::MAX` in both fields marks the
/// out-of-bounds sentinel.
#[derive(Clone, Copy, PartialEq, Eq, Structural, Debug)]
pub struct SectionId {
    pub x: usize,
    pub y: usize,
}

/// The id of the out-of-bounds sentinel cell.
pub open spec fn sentinel_id() -> SectionId {
    SectionId { x: usize::MAX, y: usize::MAX }
}

/// Number of references to ball `idx` in a cell's item list.
pub open spec fn count_ball(items: Seq<PhysItem>, idx: usize) -> int
    decreases items.len(),
{
    if items.len() == 0 {
        0
    } else {
        count_ball(items.drop_last(), idx) + if items.last() == PhysItem::Ball(idx) {
            1int
        } else {
            0int
        }
    }
}

/// Number of ball references of any id in a cell's item list.
pub open spec fn count_balls_total(items: Seq<PhysItem>) -> int
    decreases items.len(),
{
    if items.len() == 0 {
        0
    } else {
        count_balls_total(items.drop_last()) + if items.last() is Ball {
            1int
        } else {
            0int
        }
    }
}

/// The item list with every reference to ball `idx` removed.
pub open spec fn remove_ball_refs(items: Seq<PhysItem>, idx: usize) -> Seq<PhysItem>
    decreases items.len(),
{
    if items.len() == 0 {
        Seq::empty()
    } else {
        let rest = remove_ball_refs(items.drop_last(), idx);
        if items.last() == PhysItem::Ball(idx) {
            rest
        } else {
            rest.push(items.last())
        }
    }
}

/// The item list with every ball reference removed.
pub open spec fn keep_walls(items: Seq<PhysItem>) -> Seq<PhysItem>
    decreases items.len(),
{
    if items.len() == 0 {
        Seq::empty()
    } else {
        let rest = keep_walls(items.drop_last());
        if items.last() is Ball {
            rest
        } else {
            rest.push(items.last())
        }
    }
}

/// A list filtered to walls counts no ball, and holds only items of the list
/// it was filtered from.
pub proof fn lemma_keep_walls(items: Seq<PhysItem>)
    ensures
        count_balls_total(keep_walls(items)) == 0,
        forall|k: usize| count_ball(keep_walls(items), k) == 0,
        forall|t: int|
            0 <= t < keep_walls(items).len() ==> items.contains(#[trigger] keep_walls(items)[t]),
    decreases items.len(),
{
    assert forall|k: usize| count_ball(keep_walls(items), k) == 0 by {
        lemma_keep_walls_counts(items, k);
    }
    lemma_keep_walls_counts(items, 0);
    if items.len() > 0 {
        lemma_keep_walls(items.drop_last());
        let rest = keep_walls(items.drop_last());
        if items.last() is Ball {
            assert forall|t: int| 0 <= t < keep_walls(items).len() implies items.contains(
                #[trigger] keep_walls(items)[t],
            ) by {
                assert(items.drop_last().contains(rest[t]));
                let u = choose|u: int|
                    0 <= u < items.drop_last().len() && items.drop_last()[u] == rest[t];
                assert(items[u] == rest[t]);
            }
        } else {
            assert forall|t: int| 0 <= t < keep_walls(items).len() implies items.contains(
                #[trigger] keep_walls(items)[t],
            ) by {
                if t < rest.len() {
                    assert(keep_walls(items)[t] == rest[t]);
                    assert(items.drop_last().contains(rest[t]));
                    let u = choose|u: int|
                        0 <= u < items.drop_last().len() && items.drop_last()[u] == rest[t];
                    assert(items[u] == rest[t]);
                } else {
                    assert(keep_walls(items)[t] == items.last());
                    assert(items[items.len() - 1] == items.last());
                }
            }
        }
    }
}

/// No ball is counted in a wall-only list.
pub proof fn lemma_keep_walls_counts(items: Seq<PhysItem>, k: usize)
    ensures
        count_balls_total(keep_walls(items)) == 0,
        count_ball(keep_walls(items), k) == 0,
    decreases items.len(),
{
    if items.len() > 0 {
        lemma_keep_walls_counts(items.drop_last(), k);
        let rest = keep_walls(items.drop_last());
        if !(items.last() is Ball) {
            lemma_count_push(rest, items.last(), k);
        }
    }
}

/// Counts over a prefix grow by the one classified item.
pub proof fn lemma_count_take_step(items: Seq<PhysItem>, t: int, idx: usize)
    requires
        0 <= t < items.len(),
    ensures
        count_ball(items.subrange(0, t + 1), idx) == count_ball(items.subrange(0, t), idx) + if
            items[t] == PhysItem::Ball(idx) {
            1int
        } else {
            0int
        },
        count_balls_total(items.subrange(0, t + 1)) == count_balls_total(items.subrange(0, t))
            + if items[t] is Ball {
            1int
        } else {
            0int
        },
        keep_walls(items.subrange(0, t + 1)) == if items[t] is Ball {
            keep_walls(items.subrange(0, t))
        } else {
            keep_walls(items.subrange(0, t)).push(items[t])
        },
{
    assert(items.subrange(0, t + 1).drop_last() =~= items.subrange(0, t));
    assert(items.subrange(0, t + 1).last() == items[t]);
}

/// A prefix never counts more than the whole list.
pub proof fn lemma_count_prefix_le(items: Seq<PhysItem>, t: int, idx: usize)
    requires
        0 <= t <= items.len(),
    ensures
        count_ball(items.subrange(0, t), idx) <= count_ball(items, idx),
        count_balls_total(items.subrange(0, t)) <= count_balls_total(items),
    decreases items.len() - t,
{
    if t == items.len() {
        assert(items.subrange(0, t) =~= items);
    } else {
        lemma_count_take_step(items, t, idx);
        lemma_count_prefix_le(items, t + 1, idx);
    }
}

/// A positive ball total exhibits a ball reference.
pub proof fn lemma_total_pos_contains(items: Seq<PhysItem>)
    requires
        count_balls_total(items) > 0,
    ensures
        exists|t: int| 0 <= t < items.len() && (#[trigger] items[t]) is Ball,
    decreases items.len(),
{
    if items.last() is Ball {
        assert(items[items.len() - 1] is Ball);
    } else {
        lemma_total_pos_contains(items.drop_last());
        let t = choose|t: int| 0 <= t < items.drop_last().len() && (#[trigger] items.drop_last()[t]) is Ball;
        assert(items[t] is Ball);
    }
}

/// Counting one ball id after a push.
pub proof fn lemma_count_push(items: Seq<PhysItem>, it: PhysItem, idx: usize)
    ensures
        count_ball(items.push(it), idx) == count_ball(items, idx) + if it == PhysItem::Ball(idx) {
            1int
        } else {
            0int
        },
        count_balls_total(items.push(it)) == count_balls_total(items) + if it is Ball {
            1int
        } else {
            0int
        },
{
    assert(items.push(it).drop_last() =~= items);
    assert(items.push(it).last() == it);
}

/// A count is never negative.
pub proof fn lemma_count_nonneg(items: Seq<PhysItem>, idx: usize)
    ensures
        0 <= count_ball(items, idx),
        0 <= count_balls_total(items),
        count_ball(items, idx) <= count_balls_total(items),
    decreases items.len(),
{
    if items.len() > 0 {
        lemma_count_nonneg(items.drop_last(), idx);
    }
}

/// A ball id is counted at least once exactly when the list contains it.
pub proof fn lemma_count_contains(items: Seq<PhysItem>, idx: usize)
    ensures
        count_ball(items, idx) > 0 <==> items.contains(PhysItem::Ball(idx)),
    decreases items.len(),
{
    lemma_count_nonneg(items, idx);
    if items.len() > 0 {
        lemma_count_contains(items.drop_last(), idx);
        lemma_count_nonneg(items.drop_last(), idx);
        if items.contains(PhysItem::Ball(idx)) {
            let t = choose|t: int|
                0 <= t < items.len() && items[t] == PhysItem::Ball(idx);
            if t < items.len() - 1 {
                assert(items.drop_last()[t] == PhysItem::Ball(idx));
                assert(items.drop_last().contains(PhysItem::Ball(idx)));
            } else {
                assert(items.last() == PhysItem::Ball(idx));
            }
        }
        if count_ball(items, idx) > 0 {
            if items.last() == PhysItem::Ball(idx) {
                assert(items[items.len() - 1] == PhysItem::Ball(idx));
            } else {
                let t = choose|t: int|
                    0 <= t < items.drop_last().len() && items.drop_last()[t] == PhysItem::Ball(
                        idx,
                    );
                assert(items[t] == PhysItem::Ball(idx));
            }
        }
    }
}

/// Removing one ball id zeroes its count, keeps every other count, and keeps
/// only items of the list it filters.
pub proof fn lemma_remove_ball_refs(items: Seq<PhysItem>, idx: usize)
    ensures
        count_ball(remove_ball_refs(items, idx), idx) == 0,
        forall|j: usize|
            j != idx ==> count_ball(remove_ball_refs(items, idx), j) == count_ball(items, j),
        count_balls_total(remove_ball_refs(items, idx)) == count_balls_total(items) - count_ball(
            items,
            idx,
        ),
        forall|t: int|
            0 <= t < remove_ball_refs(items, idx).len() ==> items.contains(
                #[trigger] remove_ball_refs(items, idx)[t],
            ),
        remove_ball_refs(items, idx).len() <= items.len(),
    decreases items.len(),
{
    if items.len() > 0 {
        lemma_remove_ball_refs(items.drop_last(), idx);
        let rest = remove_ball_refs(items.drop_last(), idx);
        if items.last() == PhysItem::Ball(idx) {
            assert(remove_ball_refs(items, idx) == rest);
            assert forall|t: int| 0 <= t < rest.len() implies items.contains(
                #[trigger] rest[t],
            ) by {
                assert(items.drop_last().contains(rest[t]));
                let u = choose|u: int|
                    0 <= u < items.drop_last().len() && items.drop_last()[u] == rest[t];
                assert(items[u] == rest[t]);
            }
            assert forall|j: usize| j != idx implies count_ball(remove_ball_refs(items, idx), j)
                == count_ball(items, j) by {
                assert(count_ball(remove_ball_refs(items.drop_last(), idx), j) == count_ball(
                    items.drop_last(),
                    j,
                ));
            }
        } else {
            assert(remove_ball_refs(items, idx) == rest.push(items.last()));
            lemma_count_push(rest, items.last(), idx);
            assert forall|j: usize| j != idx implies count_ball(remove_ball_refs(items, idx), j)
                == count_ball(items, j) by {
                lemma_count_push(rest, items.last(), j);
                assert(count_ball(remove_ball_refs(items.drop_last(), idx), j) == count_ball(
                    items.drop_last(),
                    j,
                ));
            }
            assert forall|t: int| 0 <= t < rest.push(items.last()).len() implies items.contains(
                #[trigger] rest.push(items.last())[t],
            ) by {
                if t < rest.len() {
                    assert(rest.push(items.last())[t] == rest[t]);
                    assert(items.drop_last().contains(rest[t]));
                    let u = choose|u: int|
                        0 <= u < items.drop_last().len() && items.drop_last()[u] == rest[t];
                    assert(items[u] == rest[t]);
                } else {
                    assert(rest.push(items.last())[t] == items.last());
                    assert(items[items.len() - 1] == items.last());
                }
            }
        }
    }
}

/// A single cell in the spatial partitioning grid: its coordinates and the
/// references of the bodies currently registered in it.
pub struct Section {
    /// Grid coordinates of this section.
    pub id: SectionId,
    /// References to the physics items currently in this section.
    pub items: Vec<PhysItem>,
}

impl Section {
    /// Removes every reference to ball `id` from this section.
    #[verifier::loop_isolation(false)]
    pub fn remove_ball(&mut self, id: usize)
        ensures
            final(self).id == old(self).id,
            final(self).items@ == remove_ball_refs(old(self).items@, id),
    {
        let n: usize = self.items.len();
        let mut kept: Vec<PhysItem> = Vec::new();
        let mut t: usize = 0;
        while t < n
            invariant
                t <= n,
                kept@ == remove_ball_refs(self.items@.subrange(0, t as int), id),
            decreases n - t,
        {
            let it: PhysItem = self.items[t];
            proof {
                assert(self.items@.subrange(0, t + 1).drop_last() =~= self.items@.subrange(
                    0,
                    t as int,
                ));
                assert(self.items@.subrange(0, t + 1).last() == self.items@[t as int]);
            }
            match it {
                PhysItem::Ball(ball_id) => {
                    if ball_id != id {
                        kept.push(it);
                    }
                },
                PhysItem::Wall(_) => {
                    kept.push(it);
                },
            }
            t += 1;
        }
        proof {
            assert(self.items@.subrange(0, n as int) =~= self.items@);
        }
        self.items = kept;
    }
}

/// Every ball reference in `items` is below `n_balls` and every wall
/// reference below `n_walls`.
pub open spec fn items_ok(items: Seq<PhysItem>, n_balls: int, n_walls: int) -> bool {
    forall|t: int|
        0 <= t < items.len() ==> (match #[trigger] items[t] {
            PhysItem::Ball(r) => (r as int) < n_balls,
            PhysItem::Wall(w) => (w as int) < n_walls,
        })
}

/// Removing a ball's references keeps a list's references in range.
pub proof fn lemma_items_ok_remove(items: Seq<PhysItem>, idx: usize, n_balls: int, n_walls: int)
    requires
        items_ok(items, n_balls, n_walls),
    ensures
        items_ok(remove_ball_refs(items, idx), n_balls, n_walls),
{
    lemma_remove_ball_refs(items, idx);
    let rem = remove_ball_refs(items, idx);
    assert forall|t: int| 0 <= t < rem.len() implies (match #[trigger] rem[t] {
        PhysItem::Ball(r) => (r as int) < n_balls,
        PhysItem::Wall(w) => (w as int) < n_walls,
    }) by {
        assert(items.contains(rem[t]));
        let u = choose|u: int| 0 <= u < items.len() && items[u] == rem[t];
        assert(match items[u] {
            PhysItem::Ball(r) => (r as int) < n_balls,
            PhysItem::Wall(w) => (w as int) < n_walls,
        });
    }
}

/// Pushing an in-range reference keeps a list's references in range.
pub proof fn lemma_items_ok_push(
    items: Seq<PhysItem>,
    it: PhysItem,
    n_balls: int,
    n_walls: int,
)
    requires
        items_ok(items, n_balls, n_walls),
        match it {
            PhysItem::Ball(r) => (r as int) < n_balls,
            PhysItem::Wall(w) => (w as int) < n_walls,
        },
    ensures
        items_ok(items.push(it), n_balls, n_walls),
{
    let p = items.push(it);
    assert forall|t: int| 0 <= t < p.len() implies (match #[trigger] p[t] {
        PhysItem::Ball(r) => (r as int) < n_balls,
        PhysItem::Wall(w) => (w as int) < n_walls,
    }) by {
        if t < items.len() {
            assert(p[t] == items[t]);
        } else {
            assert(p[t] == it);
        }
    }
}

/// Whether a list of identifiers contains `id`.
#[verifier::loop_isolation(false)]
fn contains_usize(v: &Vec<usize>, id: usize) -> (r: bool)
    ensures
        r == v@.contains(id),
{
    let mut t: usize = 0;
    while t < v.len()
        invariant
            t <= v@.len(),
            forall|u: int| 0 <= u < t ==> v@[u] != id,
        decreases v@.len() - t,
    {
        if v[t] == id {
            return true;
        }
        t += 1;
    }
    false
}

/// Whether a list of cell ids contains `id`.
#[verifier::loop_isolation(false)]
fn contains_id(v: &Vec<SectionId>, id: SectionId) -> (r: bool)
    ensures
        r == v@.contains(id),
{
    let mut t: usize = 0;
    while t < v.len()
        invariant
            t <= v@.len(),
            forall|u: int| 0 <= u < t ==> v@[u] != id,
        decreases v@.len() - t,
    {
        if v[t] == id {
            return true;
        }
        t += 1;
    }
    false
}

/// Filtering a list to walls keeps its references in range.
pub proof fn lemma_items_ok_keep_walls(items: Seq<PhysItem>, n_balls: int, n_walls: int)
    requires
        items_ok(items, n_balls, n_walls),
    ensures
        items_ok(keep_walls(items), n_balls, n_walls),
{
    lemma_keep_walls(items);
    let kw = keep_walls(items);
    assert forall|t: int| 0 <= t < kw.len() implies (match #[trigger] kw[t] {
        PhysItem::Ball(r) => (r as int) < n_balls,
        PhysItem::Wall(w) => (w as int) < n_walls,
    }) by {
        assert(items.contains(kw[t]));
        let u = choose|u: int| 0 <= u < items.len() && items[u] == kw[t];
        assert(match items[u] {
            PhysItem::Ball(r) => (r as int) < n_balls,
            PhysItem::Wall(w) => (w as int) < n_walls,
        });
    }
}

/// Number of live (not yet removed) balls in the arena.
pub open spec fn count_live(balls: Seq<Option<Ball>>) -> int
    decreases balls.len(),
{
    if balls.len() == 0 {
        0
    } else {
        count_live(balls.drop_last()) + if balls.last() is Some {
            1int
        } else {
            0int
        }
    }
}

/// The live count is bounded by the arena length and counts a push.
pub proof fn lemma_count_live_push(balls: Seq<Option<Ball>>, b: Option<Ball>)
    ensures
        count_live(balls.push(b)) == count_live(balls) + if b is Some {
            1int
        } else {
            0int
        },
{
    assert(balls.push(b).drop_last() =~= balls);
}

/// Overwriting a live slot with `None` lowers the live count by one.
pub proof fn lemma_count_live_remove(balls: Seq<Option<Ball>>, k: int)
    requires
        0 <= k < balls.len(),
        balls[k] is Some,
    ensures
        count_live(balls.update(k, None)) == count_live(balls) - 1,
    decreases balls.len(),
{
    let upd = balls.update(k, None);
    if k == balls.len() - 1 {
        assert(upd.drop_last() =~= balls.drop_last());
        assert(upd.last() is None);
    } else {
        assert(upd.drop_last() =~= balls.drop_last().update(k, None));
        assert(upd.last() == balls.last());
        lemma_count_live_remove(balls.drop_last(), k);
    }
}

/// Overwriting a live slot with another live ball keeps the live count.
pub proof fn lemma_count_live_update_some(balls: Seq<Option<Ball>>, k: int, b: Ball)
    requires
        0 <= k < balls.len(),
        balls[k] is Some,
    ensures
        count_live(balls.update(k, Some(b))) == count_live(balls),
    decreases balls.len(),
{
    let upd = balls.update(k, Some(b));
    if k == balls.len() - 1 {
        assert(upd.drop_last() =~= balls.drop_last());
        assert(upd.last() is Some);
    } else {
        assert(upd.drop_last() =~= balls.drop_last().update(k, Some(b)));
        assert(upd.last() == balls.last());
        lemma_count_live_update_some(balls.drop_last(), k, b);
    }
}

/// The live count is non-negative and at most the arena length.
pub proof fn lemma_count_live_bounds(balls: Seq<Option<Ball>>)
    ensures
        0 <= count_live(balls) <= balls.len(),
    decreases balls.len(),
{
    if balls.len() > 0 {
        lemma_count_live_bounds(balls.drop_last());
    }
}

/// A spatial partitioning grid that owns all balls and walls, partitions the
/// world into uniform cells, and drives the per-frame update, cleanup and
/// collision cycle.  Identifiers index the arenas and are never reused.
pub struct Grid {
    /// Width of each grid cell in world units.
    pub unit_width: i64,
    /// Height of each grid cell in world units.
    pub unit_height: i64,
    /// The 2D array of cells, indexed `[column][row]`.
    pub grid: Vec<Vec<Section>>,
    /// The cell that collects balls whose position left the valid range.
    pub out_of_bounds: Section,
    /// All walls, indexed by identifier; never removed.
    pub walls: Vec<Wall>,
    /// All balls, indexed by identifier; `None` marks a removed ball.
    pub balls: Vec<Option<Ball>>,
    /// Number of cells horizontally.
    pub x_units: i64,
    /// Number of cells vertically.
    pub y_units: i64,
    /// Number of live balls.
    pub ball_cnt: usize,
}

impl Grid {
    /// The items of the cell at column `i`, row `j`.
    pub open spec fn cell_items(&self, i: int, j: int) -> Seq<PhysItem> {
        self.grid@[i]@[j].items@
    }

    /// Whether `id` addresses a cell of the grid proper.
    pub open spec fn valid_cell(&self, id: SectionId) -> bool {
        (id.x as int) < self.x_units && (id.y as int) < self.y_units
    }

    /// The cell addressed by `id`; anything out of range is the sentinel.
    pub open spec fn section_of(&self, id: SectionId) -> Section {
        if self.valid_cell(id) {
            self.grid@[id.x as int]@[id.y as int]
        } else {
            self.out_of_bounds
        }
    }

    /// Column index of a world x coordinate: one cell of padding shifts the
    /// range, then the floor of the division by the cell width.
    pub open spec fn cell_x(&self, wx: int) -> int {
        (wx + self.unit_width * SCALE) / (self.unit_width * SCALE)
    }

    /// Row index of a world y coordinate.
    pub open spec fn cell_y(&self, wy: int) -> int {
        (wy + self.unit_height * SCALE) / (self.unit_height * SCALE)
    }

    /// The cell a world position belongs to; out of range maps to the
    /// sentinel.
    pub open spec fn cell_of(&self, pos: Vec2) -> SectionId {
        let cx = self.cell_x(pos.x as int);
        let cy = self.cell_y(pos.y as int);
        if 0 <= cx < self.x_units && 0 <= cy < self.y_units {
            SectionId { x: cx as usize, y: cy as usize }
        } else {
            sentinel_id()
        }
    }

    /// Geometry of the cell array: positive cell size, bounded dimensions,
    /// every cell carrying its own coordinates, the sentinel marked as such.
    pub open spec fn wf_dims(&self) -> bool {
        &&& 0 < self.unit_width <= UNIT_LIMIT
        &&& 0 < self.unit_height <= UNIT_LIMIT
        &&& 2 <= self.x_units <= DIM_LIMIT
        &&& 2 <= self.y_units <= DIM_LIMIT
        &&& self.grid@.len() == self.x_units
        &&& (forall|i: int|
            0 <= i < self.x_units ==> (#[trigger] self.grid@[i])@.len() == self.y_units)
        &&& (forall|i: int, j: int|
            0 <= i < self.x_units && 0 <= j < self.y_units ==> (#[trigger] self.grid@[i]@[j]).id
                == SectionId { x: i as usize, y: j as usize })
        &&& self.out_of_bounds.id == sentinel_id()
    }

    /// Every reference in `items` points into the arenas.
    pub open spec fn items_ok_in(&self, items: Seq<PhysItem>) -> bool {
        items_ok(items, self.balls@.len() as int, self.walls@.len() as int)
    }

    /// Every cell and the sentinel hold only references into the arenas.
    pub open spec fn wf_items(&self) -> bool {
        &&& self.items_ok_in(self.out_of_bounds.items@)
        &&& (forall|i: int, j: int|
            0 <= i < self.x_units && 0 <= j < self.y_units ==> self.items_ok_in(
                #[trigger] self.cell_items(i, j),
            ))
    }

    /// A live ball is well formed and referenced exactly once, from its
    /// cached cell; a removed ball is referenced nowhere.
    pub open spec fn ball_home_ok(&self, k: int) -> bool {
        match self.balls@[k] {
            Some(b) => {
                &&& b.wf()
                &&& (b.unit_id == sentinel_id() || self.valid_cell(b.unit_id))
                &&& (if b.unit_id == sentinel_id() {
                    count_ball(self.out_of_bounds.items@, k as usize) == 1
                } else {
                    count_ball(
                        self.cell_items(b.unit_id.x as int, b.unit_id.y as int),
                        k as usize,
                    ) == 1 && count_ball(self.out_of_bounds.items@, k as usize) == 0
                })
                &&& (forall|i: int, j: int|
                    0 <= i < self.x_units && 0 <= j < self.y_units && !(i == b.unit_id.x as int
                        && j == b.unit_id.y as int) ==> count_ball(
                        #[trigger] self.cell_items(i, j),
                        k as usize,
                    ) == 0)
            },
            None => {
                &&& count_ball(self.out_of_bounds.items@, k as usize) == 0
                &&& (forall|i: int, j: int|
                    0 <= i < self.x_units && 0 <= j < self.y_units ==> count_ball(
                        #[trigger] self.cell_items(i, j),
                        k as usize,
                    ) == 0)
            },
        }
    }

    /// The ball arena: every slot satisfies `ball_home_ok` and the live count
    /// matches the counter.
    pub open spec fn wf_balls(&self) -> bool {
        &&& (forall|k: int| 0 <= k < self.balls@.len() ==> #[trigger] self.ball_home_ok(k))
        &&& self.ball_cnt == count_live(self.balls@)
    }

    /// Every stored wall is well formed.
    pub open spec fn wf_walls(&self) -> bool {
        forall|w: int| 0 <= w < self.walls@.len() ==> (#[trigger] self.walls@[w]).wf()
    }

    /// The grid invariant.
    pub open spec fn wf(&self) -> bool {
        &&& self.wf_dims()
        &&& self.wf_items()
        &&& self.wf_balls()
        &&& self.wf_walls()
    }

    /// Creates a new grid of uniform cells covering the window plus a
    /// one-cell margin on each side.
    #[verifier::loop_isolation(false)]
    pub fn new(unit_width: i64, unit_height: i64, window_width: i64, window_height: i64) -> (r:
        Grid)
        requires
            0 < unit_width <= UNIT_LIMIT,
            0 < unit_height <= UNIT_LIMIT,
            0 <= window_width <= unit_width * (DIM_LIMIT - 2),
            0 <= window_height <= unit_height * (DIM_LIMIT - 2),
        ensures
            r.wf(),
            r.unit_width == unit_width,
            r.unit_height == unit_height,
            r.x_units == (window_width + unit_width * 2) as int / unit_width as int,
            r.y_units == (window_height + unit_height * 2) as int / unit_height as int,
            r.balls@.len() == 0,
            r.walls@.len() == 0,
            r.ball_cnt == 0,
            r.out_of_bounds.items@.len() == 0,
            forall|i: int, j: int|
                0 <= i < r.x_units && 0 <= j < r.y_units ==> (#[trigger] r.cell_items(i, j)).len()
                    == 0,
    {
        proof {
            assert(unit_width * (DIM_LIMIT - 2) + unit_width * 2 == DIM_LIMIT * unit_width as int)
                by (nonlinear_arith);
            assert(unit_height * (DIM_LIMIT - 2) + unit_height * 2 == DIM_LIMIT
                * unit_height as int) by (nonlinear_arith);
            vstd::arithmetic::div_mod::lemma_div_multiples_vanish(2, unit_width as int);
            vstd::arithmetic::div_mod::lemma_div_multiples_vanish(2, unit_height as int);
            vstd::arithmetic::div_mod::lemma_div_multiples_vanish(
                DIM_LIMIT as int,
                unit_width as int,
            );
            vstd::arithmetic::div_mod::lemma_div_multiples_vanish(
                DIM_LIMIT as int,
                unit_height as int,
            );
            vstd::arithmetic::div_mod::lemma_div_is_ordered(
                2 * unit_width as int,
                window_width + unit_width * 2,
                unit_width as int,
            );
            vstd::arithmetic::div_mod::lemma_div_is_ordered(
                window_width + unit_width * 2,
                DIM_LIMIT * unit_width as int,
                unit_width as int,
            );
            vstd::arithmetic::div_mod::lemma_div_is_ordered(
                2 * unit_height as int,
                window_height + unit_height * 2,
                unit_height as int,
            );
            vstd::arithmetic::div_mod::lemma_div_is_ordered(
                window_height + unit_height * 2,
                DIM_LIMIT * unit_height as int,
                unit_height as int,
            );
        }
        let x_units: i64 = (window_width + unit_width * 2) / unit_width;
        let y_units: i64 = (window_height + unit_height * 2) / unit_height;
        let xu: usize = x_units as usize;
        let yu: usize = y_units as usize;
        let mut cells: Vec<Vec<Section>> = Vec::new();
        let mut i: usize = 0;
        while i < xu
            invariant
                i <= xu,
                cells@.len() == i,
                forall|a: int|
                    0 <= a < i ==> (#[trigger] cells@[a])@.len() == yu,
                forall|a: int, b: int|
                    0 <= a < i && 0 <= b < yu ==> (#[trigger] cells@[a]@[b]).id == (SectionId {
                        x: a as usize,
                        y: b as usize,
                    }) && cells@[a]@[b].items@.len() == 0,
            decreases xu - i,
        {
            let mut col: Vec<Section> = Vec::new();
            let mut j: usize = 0;
            while j < yu
                invariant
                    j <= yu,
                    col@.len() == j,
                    forall|b: int|
                        0 <= b < j ==> (#[trigger] col@[b]).id == (SectionId { x: i, y: b as usize })
                            && col@[b].items@.len() == 0,
                decreases yu - j,
            {
                col.push(Section { id: SectionId { x: i, y: j }, items: Vec::new() });
                j += 1;
            }
            cells.push(col);
            i += 1;
        }
        let r = Grid {
            unit_width,
            unit_height,
            grid: cells,
            out_of_bounds: Section { id: SectionId { x: usize::MAX, y: usize::MAX }, items: Vec::new() },
            walls: Vec::new(),
            balls: Vec::new(),
            x_units,
            y_units,
            ball_cnt: 0,
        };
        proof {
            assert(count_live(r.balls@) == 0);
        }
        r
    }

    /// Everything but the cell contents is unchanged between two grid states.
    pub open spec fn same_arenas(a: &Grid, b: &Grid) -> bool {
        &&& b.walls@ == a.walls@
        &&& b.balls@ == a.balls@
        &&& b.ball_cnt == a.ball_cnt
        &&& b.unit_width == a.unit_width
        &&& b.unit_height == a.unit_height
        &&& b.x_units == a.x_units
        &&& b.y_units == a.y_units
    }

    /// All cell contents agree between two grid states, except possibly the
    /// cell addressed by `id`.
    pub open spec fn sections_unchanged_except(a: &Grid, b: &Grid, id: SectionId) -> bool {
        &&& (forall|i: int, j: int|
            0 <= i < a.x_units && 0 <= j < a.y_units && !(i == id.x as int && j == id.y as int)
                ==> #[trigger] b.cell_items(i, j) == a.cell_items(i, j))
        &&& (id != sentinel_id() ==> b.out_of_bounds.items@ == a.out_of_bounds.items@)
    }

    /// Appends `item` to the cell addressed by `id` (the sentinel when `id`
    /// is not a valid cell).
    fn push_item_at(&mut self, id: SectionId, item: PhysItem)
        requires
            old(self).wf_dims(),
            id == sentinel_id() || old(self).valid_cell(id),
        ensures
            final(self).wf_dims(),
            Grid::same_arenas(old(self), final(self)),
            Grid::sections_unchanged_except(old(self), final(self), id),
            id == sentinel_id() ==> final(self).out_of_bounds.items@ == old(
                self,
            ).out_of_bounds.items@.push(item),
            id != sentinel_id() ==> final(self).cell_items(id.x as int, id.y as int) == old(
                self,
            ).cell_items(id.x as int, id.y as int).push(item) && final(self).out_of_bounds.items@
                == old(self).out_of_bounds.items@,
    {
        if id.x == usize::MAX && id.y == usize::MAX {
            self.out_of_bounds.items.push(item);
        } else {
            self.grid[id.x][id.y].items.push(item);
        }
    }

    /// Removes every reference to ball `idx` from the cell addressed by `id`
    /// (the sentinel when `id` is not a valid cell).
    fn remove_ball_at(&mut self, id: SectionId, idx: usize)
        requires
            old(self).wf_dims(),
        ensures
            final(self).wf_dims(),
            Grid::same_arenas(old(self), final(self)),
            old(self).valid_cell(id) ==> Grid::sections_unchanged_except(old(self), final(self), id)
                && final(self).cell_items(id.x as int, id.y as int) == remove_ball_refs(
                old(self).cell_items(id.x as int, id.y as int),
                idx,
            ),
            !old(self).valid_cell(id) ==> final(self).out_of_bounds.items@ == remove_ball_refs(
                old(self).out_of_bounds.items@,
                idx,
            ) && Grid::sections_unchanged_except(old(self), final(self), sentinel_id()),
    {
        if id.x < self.x_units as usize && id.y < self.y_units as usize {
            self.grid[id.x][id.y].remove_ball(idx);
        } else {
            self.out_of_bounds.remove_ball(idx);
        }
    }

    /// A list whose ball references all point into the arena holds no
    /// reference to an id at or past its end.
    pub proof fn lemma_count_zero_of_ok(&self, items: Seq<PhysItem>, idx: usize)
        requires
            self.items_ok_in(items),
            idx as int >= self.balls@.len(),
        ensures
            count_ball(items, idx) == 0,
        decreases items.len(),
    {
        if items.len() > 0 {
            assert forall|t: int| 0 <= t < items.drop_last().len() implies (match #[trigger] items.drop_last()[t] {
                PhysItem::Ball(r) => (r as int) < self.balls@.len(),
                PhysItem::Wall(w) => (w as int) < self.walls@.len(),
            }) by {
                assert(items.drop_last()[t] == items[t]);
            }
            self.lemma_count_zero_of_ok(items.drop_last(), idx);
            assert(items[items.len() - 1] == items.last());
        }
    }

    /// Assigns the next ball identifier, stores the ball, registers it in the
    /// cell computed from its position, and caches that cell on the ball.
    pub fn add_ball(&mut self, ball: Ball) -> (idx: usize)
        requires
            old(self).wf(),
            ball.wf(),
            old(self).balls@.len() < usize::MAX,
        ensures
            final(self).wf(),
            idx == old(self).balls@.len(),
            final(self).balls@ == old(self).balls@.push(
                Some(
                    Ball {
                        id: idx,
                        unit_id: old(self).cell_of(ball.position),
                        ..ball
                    },
                ),
            ),
            final(self).ball_cnt == old(self).ball_cnt + 1,
            final(self).walls@ == old(self).walls@,
            Grid::sections_unchanged_except(old(self), final(self), old(self).cell_of(ball.position)),
            old(self).cell_of(ball.position) == sentinel_id() ==> final(self).out_of_bounds.items@
                == old(self).out_of_bounds.items@.push(PhysItem::Ball(idx)),
            old(self).cell_of(ball.position) != sentinel_id() ==> final(self).cell_items(
                old(self).cell_of(ball.position).x as int,
                old(self).cell_of(ball.position).y as int,
            ) == old(self).cell_items(
                old(self).cell_of(ball.position).x as int,
                old(self).cell_of(ball.position).y as int,
            ).push(PhysItem::Ball(idx)) && final(self).out_of_bounds.items@ == old(
                self,
            ).out_of_bounds.items@,
            final(self).unit_width == old(self).unit_width,
            final(self).unit_height == old(self).unit_height,
            final(self).x_units == old(self).x_units,
            final(self).y_units == old(self).y_units,
    {
        let ghost g0 = *old(self);
        let idx: usize = self.balls.len();
        let home: SectionId = self.cell_of_position(ball.position.x, ball.position.y);
        let mut b: Ball = ball;
        b.id = idx;
        b.unit_id = home;
        proof {
            lemma_count_live_bounds(self.balls@);
            lemma_count_live_push(self.balls@, Some(b));
        }
        self.balls.push(Some(b));
        self.ball_cnt = self.ball_cnt + 1;
        self.push_item_at(home, PhysItem::Ball(idx));
        proof {
            let g2 = *self;
            // arena references stay valid: the ball arena only grew, and the
            // one new item points at the new slot
            assert forall|i: int, j: int|
                0 <= i < g2.x_units && 0 <= j < g2.y_units implies g2.items_ok_in(
                #[trigger] g2.cell_items(i, j),
            ) by {
                if home != sentinel_id() && i == home.x as int && j == home.y as int {
                    assert(g2.cell_items(i, j) == g0.cell_items(i, j).push(PhysItem::Ball(idx)));
                    assert(g0.items_ok_in(g0.cell_items(i, j)));
                    assert forall|t: int| 0 <= t < g2.cell_items(i, j).len() implies (
                    match #[trigger] g2.cell_items(i, j)[t] {
                        PhysItem::Ball(r) => (r as int) < g2.balls@.len(),
                        PhysItem::Wall(w) => (w as int) < g2.walls@.len(),
                    }) by {
                        if t < g0.cell_items(i, j).len() {
                            assert(g2.cell_items(i, j)[t] == g0.cell_items(i, j)[t]);
                        } else {
                            assert(g2.cell_items(i, j)[t] == PhysItem::Ball(idx));
                        }
                    }
                } else {
                    assert(g2.cell_items(i, j) == g0.cell_items(i, j));
                    assert(g0.items_ok_in(g0.cell_items(i, j)));
                    assert forall|t: int| 0 <= t < g2.cell_items(i, j).len() implies (
                    match #[trigger] g2.cell_items(i, j)[t] {
                        PhysItem::Ball(r) => (r as int) < g2.balls@.len(),
                        PhysItem::Wall(w) => (w as int) < g2.walls@.len(),
                    }) by {
                        assert(g0.cell_items(i, j)[t] == g2.cell_items(i, j)[t]);
                    }
                }
            }
            assert(g0.items_ok_in(g0.out_of_bounds.items@));
            assert forall|t: int| 0 <= t < g2.out_of_bounds.items@.len() implies (
            match #[trigger] g2.out_of_bounds.items@[t] {
                PhysItem::Ball(r) => (r as int) < g2.balls@.len(),
                PhysItem::Wall(w) => (w as int) < g2.walls@.len(),
            }) by {
                if home == sentinel_id() {
                    if t < g0.out_of_bounds.items@.len() {
                        assert(g2.out_of_bounds.items@[t] == g0.out_of_bounds.items@[t]);
                    } else {
                        assert(g2.out_of_bounds.items@[t] == PhysItem::Ball(idx));
                    }
                } else {
                    assert(g2.out_of_bounds.items@[t] == g0.out_of_bounds.items@[t]);
                }
            }
            // each ball is still referenced exactly once, from its cached cell
            assert forall|k: int| 0 <= k < g2.balls@.len() implies #[trigger] g2.ball_home_ok(
                k,
            ) by {
                if k < g0.balls@.len() {
                    assert(g0.ball_home_ok(k));
                    assert(g2.balls@[k] == g0.balls@[k]);
                    match g0.balls@[k] {
                        Some(ob) => {
                            if home == sentinel_id() {
                                lemma_count_push(
                                    g0.out_of_bounds.items@,
                                    PhysItem::Ball(idx),
                                    k as usize,
                                );
                            } else {
                                lemma_count_push(
                                    g0.cell_items(home.x as int, home.y as int),
                                    PhysItem::Ball(idx),
                                    k as usize,
                                );
                            }
                            assert forall|i: int, j: int|
                                0 <= i < g2.x_units && 0 <= j < g2.y_units && !(i
                                    == ob.unit_id.x as int && j == ob.unit_id.y as int) implies
                                count_ball(#[trigger] g2.cell_items(i, j), k as usize) == 0 by {
                                if home != sentinel_id() && i == home.x as int && j
                                    == home.y as int {
                                    lemma_count_push(
                                        g0.cell_items(i, j),
                                        PhysItem::Ball(idx),
                                        k as usize,
                                    );
                                } else {
                                    assert(g2.cell_items(i, j) == g0.cell_items(i, j));
                                }
                            }
                        },
                        None => {
                            assert forall|i: int, j: int|
                                0 <= i < g2.x_units && 0 <= j < g2.y_units implies count_ball(
                                #[trigger] g2.cell_items(i, j),
                                k as usize,
                            ) == 0 by {
                                if home != sentinel_id() && i == home.x as int && j
                                    == home.y as int {
                                    lemma_count_push(
                                        g0.cell_items(i, j),
                                        PhysItem::Ball(idx),
                                        k as usize,
                                    );
                                } else {
                                    assert(g2.cell_items(i, j) == g0.cell_items(i, j));
                                }
                            }
                            if home == sentinel_id() {
                                lemma_count_push(
                                    g0.out_of_bounds.items@,
                                    PhysItem::Ball(idx),
                                    k as usize,
                                );
                            }
                        },
                    }
                } else {
                    // the new ball: its only reference is the one just pushed
                    assert(g2.balls@[k] == Some(b));
                    assert(b.wf());
                    if home == sentinel_id() {
                        g0.lemma_count_zero_of_ok(g0.out_of_bounds.items@, idx);
                        lemma_count_push(g0.out_of_bounds.items@, PhysItem::Ball(idx), idx);
                        assert forall|i: int, j: int|
                            0 <= i < g2.x_units && 0 <= j < g2.y_units implies count_ball(
                            #[trigger] g2.cell_items(i, j),
                            idx,
                        ) == 0 by {
                            assert(g2.cell_items(i, j) == g0.cell_items(i, j));
                            assert(g0.items_ok_in(g0.cell_items(i, j)));
                            g0.lemma_count_zero_of_ok(g0.cell_items(i, j), idx);
                        }
                    } else {
                        g0.lemma_count_zero_of_ok(
                            g0.cell_items(home.x as int, home.y as int),
                            idx,
                        );
                        lemma_count_push(
                            g0.cell_items(home.x as int, home.y as int),
                            PhysItem::Ball(idx),
                            idx,
                        );
                        g0.lemma_count_zero_of_ok(g0.out_of_bounds.items@, idx);
                        assert forall|i: int, j: int|
                            0 <= i < g2.x_units && 0 <= j < g2.y_units && !(i == home.x as int && j
                                == home.y as int) implies count_ball(
                            #[trigger] g2.cell_items(i, j),
                            idx,
                        ) == 0 by {
                            assert(g2.cell_items(i, j) == g0.cell_items(i, j));
                            assert(g0.items_ok_in(g0.cell_items(i, j)));
                            g0.lemma_count_zero_of_ok(g0.cell_items(i, j), idx);
                        }
                    }
                }
            }
        }
        idx
    }

    /// Moves a ball's cell reference to the cell computed from its current
    /// position.  A no-op — the grid is left exactly as it was — when the
    /// ball has not crossed a cell boundary, which makes reconciliation
    /// idempotent.
    pub fn move_ball(&mut self, idx: usize)
        requires
            old(self).wf(),
            idx < old(self).balls@.len(),
            old(self).balls@[idx as int] is Some,
        ensures
            final(self).wf(),
            final(self).balls@ == old(self).balls@.update(
                idx as int,
                Some(
                    Ball {
                        unit_id: old(self).cell_of(old(self).balls@[idx as int].unwrap().position),
                        ..old(self).balls@[idx as int].unwrap()
                    },
                ),
            ),
            final(self).ball_cnt == old(self).ball_cnt,
            final(self).walls@ == old(self).walls@,
            final(self).unit_width == old(self).unit_width,
            final(self).unit_height == old(self).unit_height,
            final(self).x_units == old(self).x_units,
            final(self).y_units == old(self).y_units,
            old(self).balls@[idx as int].unwrap().unit_id == old(self).cell_of(
                old(self).balls@[idx as int].unwrap().position,
            ) ==> *final(self) == *old(self),
            forall|i: int, j: int|
                0 <= i < old(self).x_units && 0 <= j < old(self).y_units && !(i == old(
                    self,
                ).balls@[idx as int].unwrap().unit_id.x as int && j == old(
                    self,
                ).balls@[idx as int].unwrap().unit_id.y as int) && !(i == old(self).cell_of(
                    old(self).balls@[idx as int].unwrap().position,
                ).x as int && j == old(self).cell_of(
                    old(self).balls@[idx as int].unwrap().position,
                ).y as int) ==> #[trigger] final(self).cell_items(i, j) == old(self).cell_items(
                    i,
                    j,
                ),
    {
        let ghost g0 = *old(self);
        proof {
            assert(g0.ball_home_ok(idx as int));
        }
        let b: Ball = self.balls[idx].unwrap();
        let home: SectionId = self.cell_of_position(b.position.x, b.position.y);
        if home != b.unit_id {
            let ghost cache = b.unit_id;
            self.push_item_at(home, PhysItem::Ball(idx));
            let ghost g1 = *self;
            self.remove_ball_at(b.unit_id, idx);
            let ghost g2 = *self;
            let mut nb: Ball = b;
            nb.unit_id = home;
            proof {
                lemma_count_live_update_some(self.balls@, idx as int, nb);
            }
            self.balls.set(idx, Some(nb));
            proof {
                let g3 = *self;
                assert(g0.balls.len() == g0.balls@.len());
                assert(cache == sentinel_id() || g0.valid_cell(cache));
                // how every item list of g3 relates to the one of g0
                assert forall|i: int, j: int|
                    0 <= i < g3.x_units && 0 <= j < g3.y_units implies #[trigger] g3.cell_items(
                    i,
                    j,
                ) == (if home != sentinel_id() && i == home.x as int && j == home.y as int {
                    g0.cell_items(i, j).push(PhysItem::Ball(idx))
                } else if g0.valid_cell(cache) && i == cache.x as int && j == cache.y as int {
                    remove_ball_refs(g0.cell_items(i, j), idx)
                } else {
                    g0.cell_items(i, j)
                }) by {
                    assert(g3.cell_items(i, j) == g2.cell_items(i, j));
                    if g0.valid_cell(cache) && i == cache.x as int && j == cache.y as int {
                        assert(g2.cell_items(i, j) == remove_ball_refs(g1.cell_items(i, j), idx));
                        assert(g1.cell_items(i, j) == g0.cell_items(i, j));
                    } else if home != sentinel_id() && i == home.x as int && j == home.y as int {
                        assert(g2.cell_items(i, j) == g1.cell_items(i, j));
                        assert(g1.cell_items(i, j) == g0.cell_items(i, j).push(PhysItem::Ball(
                            idx,
                        )));
                    } else {
                        assert(g2.cell_items(i, j) == g1.cell_items(i, j));
                        assert(g1.cell_items(i, j) == g0.cell_items(i, j));
                    }
                }
                assert(g3.out_of_bounds.items@ == (if home == sentinel_id() {
                    g0.out_of_bounds.items@.push(PhysItem::Ball(idx))
                } else if !g0.valid_cell(cache) {
                    remove_ball_refs(g0.out_of_bounds.items@, idx)
                } else {
                    g0.out_of_bounds.items@
                }));
                // references stay in range in every list
                assert forall|i: int, j: int|
                    0 <= i < g3.x_units && 0 <= j < g3.y_units implies g3.items_ok_in(
                    #[trigger] g3.cell_items(i, j),
                ) by {
                    assert(g0.items_ok_in(g0.cell_items(i, j)));
                    if home != sentinel_id() && i == home.x as int && j == home.y as int {
                        lemma_items_ok_push(
                            g0.cell_items(i, j),
                            PhysItem::Ball(idx),
                            g0.balls@.len() as int,
                            g0.walls@.len() as int,
                        );
                    } else if g0.valid_cell(cache) && i == cache.x as int && j == cache.y as int {
                        lemma_items_ok_remove(
                            g0.cell_items(i, j),
                            idx,
                            g0.balls@.len() as int,
                            g0.walls@.len() as int,
                        );
                    } else {
                        assert(g3.cell_items(i, j) == g0.cell_items(i, j));
                    }
                }
                assert(g0.items_ok_in(g0.out_of_bounds.items@));
                if home == sentinel_id() {
                    lemma_items_ok_push(
                        g0.out_of_bounds.items@,
                        PhysItem::Ball(idx),
                        g0.balls@.len() as int,
                        g0.walls@.len() as int,
                    );
                    lemma_items_ok_remove(
                        g0.out_of_bounds.items@.push(PhysItem::Ball(idx)),
                        idx,
                        g0.balls@.len() as int,
                        g0.walls@.len() as int,
                    );
                } else {
                    lemma_items_ok_remove(
                        g0.out_of_bounds.items@,
                        idx,
                        g0.balls@.len() as int,
                        g0.walls@.len() as int,
                    );
                }
                assert(g3.items_ok_in(g3.out_of_bounds.items@));
                // each ball is still referenced exactly once, from its cache
                assert forall|k: int| 0 <= k < g3.balls@.len() implies #[trigger] g3.ball_home_ok(
                    k,
                ) by {
                    assert(g0.ball_home_ok(k));
                    if k == idx as int {
                        // the moved ball: one reference in `home`, none elsewhere
                        if home == sentinel_id() {
                            lemma_count_push(g0.out_of_bounds.items@, PhysItem::Ball(idx), idx);
                            assert(count_ball(g3.out_of_bounds.items@, idx) == 1);
                            assert forall|i: int, j: int|
                                0 <= i < g3.x_units && 0 <= j < g3.y_units implies count_ball(
                                #[trigger] g3.cell_items(i, j),
                                idx,
                            ) == 0 by {
                                if i == cache.x as int && j == cache.y as int {
                                    lemma_remove_ball_refs(g0.cell_items(i, j), idx);
                                } else {
                                    assert(g3.cell_items(i, j) == g0.cell_items(i, j));
                                }
                            }
                        } else {
                            lemma_count_push(
                                g0.cell_items(home.x as int, home.y as int),
                                PhysItem::Ball(idx),
                                idx,
                            );
                            assert(count_ball(g3.cell_items(home.x as int, home.y as int), idx)
                                == 1);
                            if g0.valid_cell(cache) {
                                lemma_remove_ball_refs(
                                    g0.cell_items(cache.x as int, cache.y as int),
                                    idx,
                                );
                                assert(count_ball(g3.out_of_bounds.items@, idx) == 0);
                            } else {
                                lemma_remove_ball_refs(g0.out_of_bounds.items@, idx);
                                assert(count_ball(g3.out_of_bounds.items@, idx) == 0);
                            }
                            assert forall|i: int, j: int|
                                0 <= i < g3.x_units && 0 <= j < g3.y_units && !(i == home.x as int
                                    && j == home.y as int) implies count_ball(
                                #[trigger] g3.cell_items(i, j),
                                idx,
                            ) == 0 by {
                                if g0.valid_cell(cache) && i == cache.x as int && j
                                    == cache.y as int {
                                    lemma_remove_ball_refs(g0.cell_items(i, j), idx);
                                } else {
                                    assert(g3.cell_items(i, j) == g0.cell_items(i, j));
                                }
                            }
                        }
                    } else {
                        // an unrelated ball: no list changed its count of `k`
                        assert(g3.balls@[k] == g0.balls@[k]);
                        if home == sentinel_id() {
                            lemma_count_push(
                                g0.out_of_bounds.items@,
                                PhysItem::Ball(idx),
                                k as usize,
                            );
                        } else if !g0.valid_cell(cache) {
                            lemma_remove_ball_refs(g0.out_of_bounds.items@, idx);
                            assert(count_ball(
                                remove_ball_refs(g0.out_of_bounds.items@, idx),
                                k as usize,
                            ) == count_ball(g0.out_of_bounds.items@, k as usize));
                        }
                        assert(count_ball(g3.out_of_bounds.items@, k as usize) == count_ball(
                            g0.out_of_bounds.items@,
                            k as usize,
                        ));
                        assert forall|i: int, j: int|
                            0 <= i < g3.x_units && 0 <= j < g3.y_units implies count_ball(
                            #[trigger] g3.cell_items(i, j),
                            k as usize,
                        ) == count_ball(g0.cell_items(i, j), k as usize) by {
                            if home != sentinel_id() && i == home.x as int && j == home.y as int {
                                lemma_count_push(
                                    g0.cell_items(i, j),
                                    PhysItem::Ball(idx),
                                    k as usize,
                                );
                            } else if g0.valid_cell(cache) && i == cache.x as int && j
                                == cache.y as int {
                                lemma_remove_ball_refs(g0.cell_items(i, j), idx);
                                assert(count_ball(
                                    remove_ball_refs(g0.cell_items(i, j), idx),
                                    k as usize,
                                ) == count_ball(g0.cell_items(i, j), k as usize));
                            } else {
                                assert(g3.cell_items(i, j) == g0.cell_items(i, j));
                            }
                        }
                    }
                }
            }
        } else {
            proof {
                assert(g0.balls@ =~= g0.balls@.update(
                    idx as int,
                    Some(Ball { unit_id: g0.cell_of(b.position), ..b }),
                ));
            }
        }
    }

    /// Finds the cells a line segment passes through, walking the grid from
    /// the start cell toward the end cell by always crossing whichever cell
    /// boundary is nearer along the segment.  Each visited cell appears
    /// exactly once; a walk that leaves the valid range records the sentinel
    /// and stops; a bounded step count guards termination.
    #[verifier::loop_isolation(false)]
    pub fn get_sections_between_points(&self, s: Vec2, e: Vec2) -> (r: Vec<SectionId>)
        requires
            self.wf_dims(),
            coord_range(s),
            coord_range(e),
        ensures
            r@.len() >= 1,
            r@[0] == self.cell_of(s),
            r@.contains(self.cell_of(e)),
            forall|t: int|
                0 <= t < r@.len() ==> (#[trigger] r@[t]) == sentinel_id() || self.valid_cell(
                    r@[t],
                ),
            forall|t1: int, t2: int| 0 <= t1 < t2 < r@.len() ==> r@[t1] != r@[t2],
            self.cell_of(s) == self.cell_of(e) ==> r@ == seq![self.cell_of(s)],
    {
        let vec: Vec2 = normalize(find_vector(s, e));
        let vx: i64 = vec.x;
        let vy: i64 = vec.y;
        let uw_t: i64 = self.unit_width * SCALE;
        let uh_t: i64 = self.unit_height * SCALE;
        proof {
            crate::num::lemma_floor_div_bound(
                s.x + self.unit_width * SCALE,
                self.unit_width * SCALE,
                0x20_0000,
            );
            crate::num::lemma_floor_div_bound(
                s.y + self.unit_height * SCALE,
                self.unit_height * SCALE,
                0x20_0000,
            );
        }
        let mut curr_x_unit: i64 = crate::num::floor_div(s.x + uw_t, uw_t);
        let mut curr_y_unit: i64 = crate::num::floor_div(s.y + uh_t, uh_t);
        let mut relative_x: i64 = rem_fp(s.x, uw_t);
        let mut relative_y: i64 = rem_fp(s.y, uh_t);
        let start_id: SectionId = if 0 <= curr_x_unit && curr_x_unit < self.x_units && 0
            <= curr_y_unit && curr_y_unit < self.y_units {
            SectionId { x: curr_x_unit as usize, y: curr_y_unit as usize }
        } else {
            SectionId { x: usize::MAX, y: usize::MAX }
        };
        let end_id: SectionId = self.cell_of_position(e.x, e.y);
        proof {
            assert(start_id == self.cell_of(s));
            assert(end_id == self.cell_of(e));
        }
        if (vx == 0 && vy == 0) || start_id == end_id {
            proof {
                if vx == 0 && vy == 0 {
                    lemma_normalize_zero(sub_spec(s, e));
                    assert(Vec2 { x: e.x, y: e.y } == e);
                    assert(Vec2 { x: s.x, y: s.y } == s);
                }
            }
            let mut out: Vec<SectionId> = Vec::new();
            out.push(start_id);
            proof {
                assert(out@ =~= seq![self.cell_of(s)]);
                assert(out@[0] == self.cell_of(e));
            }
            return out;
        }
        let mut visited: Vec<SectionId> = Vec::new();
        let max_steps: i64 = (self.x_units + self.y_units) * 2 + 10;
        let mut steps: i64 = 0;
        let mut curr_id: SectionId = start_id;
        let inf: i64 = i64::MAX;
        visited.push(curr_id);
        loop
            invariant
                visited@.len() >= 1,
                visited@[0] == start_id,
                forall|t1: int, t2: int| 0 <= t1 < t2 < visited@.len() ==> visited@[t1]
                    != visited@[t2],
                forall|t: int|
                    0 <= t < visited@.len() ==> (#[trigger] visited@[t]) == sentinel_id()
                        || self.valid_cell(visited@[t]),
                curr_id == sentinel_id() || self.valid_cell(curr_id),
                abs_i(relative_x as int) <= uw_t,
                abs_i(relative_y as int) <= uh_t,
                -0x40_0000 <= curr_x_unit <= 0x40_0000,
                -0x40_0000 <= curr_y_unit <= 0x40_0000,
                0 <= steps <= max_steps,
            decreases max_steps - steps,
        {
            if curr_id == end_id {
                break ;
            }
            // distance along the segment to the next vertical boundary
            let mut tx: i64;
            if vx < 0 {
                tx = div_fp(relative_x * SCALE, -vx);
            } else if vx > 0 {
                tx = div_fp((uw_t - relative_x) * SCALE, vx);
            } else {
                tx = inf;
            }
            // and to the next horizontal boundary
            let mut ty: i64;
            if vy < 0 {
                ty = div_fp(relative_y * SCALE, -vy);
            } else if vy > 0 {
                ty = div_fp((uh_t - relative_y) * SCALE, vy);
            } else {
                ty = inf;
            }
            // a vanishing or backward distance counts as unreachable
            if tx <= 0 {
                tx = inf;
            }
            if ty <= 0 {
                ty = inf;
            }
            let t: i64;
            if tx < ty {
                t = tx;
                if vx > 0 {
                    curr_x_unit = curr_x_unit + 1;
                } else {
                    curr_x_unit = curr_x_unit - 1;
                }
                relative_x = if vx > 0 {
                    0
                } else {
                    uw_t
                };
                proof {
                    crate::num::lemma_abs_mul(vy as int, t as int, SCALE as int, 0x200_0000_0000);
                }
                relative_y = clamp_fp(div_fp(vy * t, SCALE), -uh_t, uh_t);
            } else {
                t = ty;
                if vy > 0 {
                    curr_y_unit = curr_y_unit + 1;
                } else {
                    curr_y_unit = curr_y_unit - 1;
                }
                relative_y = if vy > 0 {
                    0
                } else {
                    uh_t
                };
                if t == inf {
                    relative_x = if vx > 0 {
                        uw_t
                    } else if vx < 0 {
                        -uw_t
                    } else {
                        0
                    };
                } else {
                    proof {
                        crate::num::lemma_abs_mul(
                            vx as int,
                            t as int,
                            SCALE as int,
                            0x200_0000_0000,
                        );
                    }
                    relative_x = clamp_fp(div_fp(vx * t, SCALE), -uw_t, uw_t);
                }
            }
            if curr_x_unit < 0 || curr_x_unit >= self.x_units || curr_y_unit < 0 || curr_y_unit
                >= self.y_units {
                let sent: SectionId = SectionId { x: usize::MAX, y: usize::MAX };
                if !contains_id(&visited, sent) {
                    visited.push(sent);
                }
                break ;
            }
            curr_id = SectionId { x: curr_x_unit as usize, y: curr_y_unit as usize };
            steps += 1;
            if steps > max_steps {
                break ;
            }
            if !contains_id(&visited, curr_id) {
                visited.push(curr_id);
            }
        }
        let ghost pre = visited@;
        if !contains_id(&visited, end_id) {
            visited.push(end_id);
            proof {
                assert(visited@[visited@.len() - 1] == end_id);
                assert(visited@[0] == start_id);
                assert forall|t1: int, t2: int| 0 <= t1 < t2 < visited@.len() implies visited@[t1]
                    != visited@[t2] by {
                    if t2 == visited@.len() - 1 {
                        assert(visited@[t1] == pre[t1]);
                        assert(!pre.contains(end_id));
                    }
                }
            }
        } else {
            proof {
                let t = choose|t: int| 0 <= t < pre.len() && pre[t] == end_id;
                assert(visited@[t] == end_id);
            }
        }
        visited
    }

    /// Whether `id` occurs among the first `t` entries of `ids`.
    pub open spec fn appears(ids: Seq<SectionId>, t: int, id: SectionId) -> bool {
        exists|u: int| 0 <= u < t && ids[u] == id
    }

    /// Assigns the next wall identifier, stores the wall, and registers a
    /// reference to it in every valid cell the segment from `a` to `b`
    /// passes through.  Cells outside the grid (the sentinel) are skipped.
    #[verifier::loop_isolation(false)]
    pub fn add_wall(&mut self, wall: Wall) -> (idx: usize)
        requires
            old(self).wf(),
            wall.wf(),
            old(self).walls@.len() < usize::MAX,
        ensures
            final(self).wf(),
            idx == old(self).walls@.len(),
            final(self).walls@ == old(self).walls@.push(Wall { id: idx, ..wall }),
            final(self).balls@ == old(self).balls@,
            final(self).ball_cnt == old(self).ball_cnt,
            final(self).out_of_bounds.items@ == old(self).out_of_bounds.items@,
            final(self).unit_width == old(self).unit_width,
            final(self).unit_height == old(self).unit_height,
            final(self).x_units == old(self).x_units,
            final(self).y_units == old(self).y_units,
            forall|i: int, j: int|
                0 <= i < old(self).x_units && 0 <= j < old(self).y_units ==> (
                #[trigger] final(self).cell_items(i, j)) == old(self).cell_items(i, j) || final(
                    self
                ).cell_items(i, j) == old(self).cell_items(i, j).push(PhysItem::Wall(idx)),
            old(self).valid_cell(old(self).cell_of(wall.a)) ==> final(self).cell_items(
                old(self).cell_of(wall.a).x as int,
                old(self).cell_of(wall.a).y as int,
            ).contains(PhysItem::Wall(idx)),
            old(self).valid_cell(old(self).cell_of(wall.b)) ==> final(self).cell_items(
                old(self).cell_of(wall.b).x as int,
                old(self).cell_of(wall.b).y as int,
            ).contains(PhysItem::Wall(idx)),
    {
        let ghost g0 = *old(self);
        let idx: usize = self.walls.len();
        let mut w: Wall = wall;
        w.id = idx;
        self.walls.push(w);
        let ids: Vec<SectionId> = self.get_sections_between_points(w.a, w.b);
        let n: usize = ids.len();
        let mut t: usize = 0;
        while t < n
            invariant
                t <= n,
                self.wf_dims(),
                self.walls@ == g0.walls@.push(Wall { id: idx, ..wall }),
                self.balls@ == g0.balls@,
                self.ball_cnt == g0.ball_cnt,
                self.unit_width == g0.unit_width,
                self.unit_height == g0.unit_height,
                self.x_units == g0.x_units,
                self.y_units == g0.y_units,
                self.out_of_bounds.items@ == g0.out_of_bounds.items@,
                forall|i: int, j: int|
                    0 <= i < self.x_units && 0 <= j < self.y_units ==> (
                    #[trigger] self.cell_items(i, j)) == (if Grid::appears(
                        ids@,
                        t as int,
                        SectionId { x: i as usize, y: j as usize },
                    ) {
                        g0.cell_items(i, j).push(PhysItem::Wall(idx))
                    } else {
                        g0.cell_items(i, j)
                    }),
            decreases n - t,
        {
            let id: SectionId = ids[t];
            let ghost pre = *self;
            if id.x < self.x_units as usize && id.y < self.y_units as usize {
                proof {
                    // this cell was not visited before: the traversal has no
                    // duplicates
                    assert(!Grid::appears(ids@, t as int, id));
                }
                self.push_item_at(id, PhysItem::Wall(idx));
            }
            proof {
                assert forall|i: int, j: int|
                    0 <= i < self.x_units && 0 <= j < self.y_units implies (
                #[trigger] self.cell_items(i, j)) == (if Grid::appears(
                    ids@,
                    t + 1,
                    SectionId { x: i as usize, y: j as usize },
                ) {
                    g0.cell_items(i, j).push(PhysItem::Wall(idx))
                } else {
                    g0.cell_items(i, j)
                }) by {
                    let here = SectionId { x: i as usize, y: j as usize };
                    if here == id {
                        assert(Grid::appears(ids@, t + 1, here));
                    } else {
                        assert(self.cell_items(i, j) == pre.cell_items(i, j));
                        if Grid::appears(ids@, t + 1, here) {
                            let u = choose|u: int| 0 <= u < t + 1 && ids@[u] == here;
                            assert(u < t);
                            assert(Grid::appears(ids@, t as int, here));
                        } else {
                            assert(!Grid::appears(ids@, t as int, here));
                        }
                    }
                }
            }
            t += 1;
        }
        proof {
            let g2 = *self;
            // references in every list stay in range
            assert forall|i: int, j: int|
                0 <= i < g2.x_units && 0 <= j < g2.y_units implies g2.items_ok_in(
                #[trigger] g2.cell_items(i, j),
            ) by {
                assert(g0.items_ok_in(g0.cell_items(i, j)));
                if Grid::appears(ids@, n as int, SectionId { x: i as usize, y: j as usize }) {
                    lemma_items_ok_push(
                        g0.cell_items(i, j),
                        PhysItem::Wall(idx),
                        g0.balls@.len() as int,
                        g2.walls@.len() as int,
                    );
                } else {
                }
            }
            assert(g0.items_ok_in(g0.out_of_bounds.items@));
            assert(g2.items_ok_in(g2.out_of_bounds.items@));
            // ball counts are untouched by wall references
            assert forall|k: int| 0 <= k < g2.balls@.len() implies #[trigger] g2.ball_home_ok(
                k,
            ) by {
                assert(g0.ball_home_ok(k));
                assert forall|i: int, j: int|
                    0 <= i < g2.x_units && 0 <= j < g2.y_units implies count_ball(
                    #[trigger] g2.cell_items(i, j),
                    k as usize,
                ) == count_ball(g0.cell_items(i, j), k as usize) by {
                    if Grid::appears(ids@, n as int, SectionId { x: i as usize, y: j as usize }) {
                        lemma_count_push(g0.cell_items(i, j), PhysItem::Wall(idx), k as usize);
                    }
                }
            }
            // the cells of both endpoints, when valid, were visited
            if g0.valid_cell(g0.cell_of(wall.a)) {
                assert(ids@[0] == g0.cell_of(wall.a));
                assert(Grid::appears(ids@, n as int, g0.cell_of(wall.a)));
                lemma_count_contains(
                    g2.cell_items(g0.cell_of(wall.a).x as int, g0.cell_of(wall.a).y as int),
                    0,
                );
                assert(g2.cell_items(
                    g0.cell_of(wall.a).x as int,
                    g0.cell_of(wall.a).y as int,
                ).last() == PhysItem::Wall(idx));
                assert(g2.cell_items(
                    g0.cell_of(wall.a).x as int,
                    g0.cell_of(wall.a).y as int,
                ).contains(PhysItem::Wall(idx)));
            }
            if g0.valid_cell(g0.cell_of(wall.b)) {
                assert(ids@.contains(g0.cell_of(wall.b)));
                let u = choose|u: int| 0 <= u < ids@.len() && ids@[u] == g0.cell_of(wall.b);
                assert(Grid::appears(ids@, n as int, g0.cell_of(wall.b)));
                assert(g2.cell_items(
                    g0.cell_of(wall.b).x as int,
                    g0.cell_of(wall.b).y as int,
                ).last() == PhysItem::Wall(idx));
                assert(g2.cell_items(
                    g0.cell_of(wall.b).x as int,
                    g0.cell_of(wall.b).y as int,
                ).contains(PhysItem::Wall(idx)));
            }
        }
        idx
    }

    /// The items of the cell addressed by `id`, or of the sentinel when `id`
    /// is out of range.
    pub open spec fn items_at(&self, id: SectionId) -> Seq<PhysItem> {
        if self.valid_cell(id) {
            self.cell_items(id.x as int, id.y as int)
        } else {
            self.out_of_bounds.items@
        }
    }

    /// Removes every ball listed in the cell addressed by `id` from the
    /// arena, leaving only the wall references there.
    #[verifier::loop_isolation(false)]
    fn cleanup_section(&mut self, id: SectionId)
        requires
            old(self).wf(),
        ensures
            final(self).wf(),
            final(self).balls@.len() == old(self).balls@.len(),
            forall|k: int|
                0 <= k < old(self).balls@.len() ==> #[trigger] final(self).balls@[k] == (
                if count_ball(old(self).items_at(id), k as usize) >= 1 {
                    None::<Ball>
                } else {
                    old(self).balls@[k]
                }),
            final(self).ball_cnt == old(self).ball_cnt - count_balls_total(old(self).items_at(id)),
            final(self).walls@ == old(self).walls@,
            final(self).unit_width == old(self).unit_width,
            final(self).unit_height == old(self).unit_height,
            final(self).x_units == old(self).x_units,
            final(self).y_units == old(self).y_units,
            final(self).items_at(id) == keep_walls(old(self).items_at(id)),
            forall|i: int, j: int|
                0 <= i < old(self).x_units && 0 <= j < old(self).y_units && !(old(self).valid_cell(
                    id,
                ) && i == id.x as int && j == id.y as int) ==> #[trigger] final(self).cell_items(
                    i,
                    j,
                ) == old(self).cell_items(i, j),
            old(self).valid_cell(id) ==> final(self).out_of_bounds.items@ == old(
                self,
            ).out_of_bounds.items@,
    {
        let ghost g0 = *old(self);
        let valid: bool = id.x < self.x_units as usize && id.y < self.y_units as usize;
        proof {
            assert(valid == g0.valid_cell(id));
            assert(g0.balls.len() == g0.balls@.len());
        }
        let n: usize = if valid {
            self.grid[id.x][id.y].items.len()
        } else {
            self.out_of_bounds.items.len()
        };
        let ghost t0 = g0.items_at(id);
        let mut kept: Vec<PhysItem> = Vec::new();
        let mut t: usize = 0;
        while t < n
            invariant
                t <= n,
                n == t0.len(),
                self.wf_dims(),
                self.walls@ == g0.walls@,
                self.grid@ == g0.grid@,
                self.out_of_bounds == g0.out_of_bounds,
                self.unit_width == g0.unit_width,
                self.unit_height == g0.unit_height,
                self.x_units == g0.x_units,
                self.y_units == g0.y_units,
                self.balls@.len() == g0.balls@.len(),
                kept@ == keep_walls(t0.subrange(0, t as int)),
                forall|k: int|
                    0 <= k < g0.balls@.len() ==> #[trigger] self.balls@[k] == (if count_ball(
                        t0.subrange(0, t as int),
                        k as usize,
                    ) >= 1 {
                        None::<Ball>
                    } else {
                        g0.balls@[k]
                    }),
                self.ball_cnt == g0.ball_cnt - count_balls_total(t0.subrange(0, t as int)),
                self.ball_cnt == count_live(self.balls@),
            decreases n - t,
        {
            let it: PhysItem = if valid {
                self.grid[id.x][id.y].items[t]
            } else {
                self.out_of_bounds.items[t]
            };
            proof {
                assert(it == t0[t as int]);
                lemma_count_take_step(t0, t as int, 0);
            }
            match it {
                PhysItem::Ball(idx) => {
                    proof {
                        lemma_count_take_step(t0, t as int, idx);
                        lemma_count_prefix_le(t0, t as int + 1, idx);
                        // this id is listed here, so the ball is live and
                        // cached here, and listed exactly once
                        assert(g0.items_ok_in(t0));
                        assert(match t0[t as int] {
                            PhysItem::Ball(r) => (r as int) < g0.balls@.len(),
                            PhysItem::Wall(w) => (w as int) < g0.walls@.len(),
                        });
                        assert(g0.ball_home_ok(idx as int));
                        lemma_count_contains(t0, idx);
                        assert(t0.contains(PhysItem::Ball(idx)));
                        assert(count_ball(t0, idx) >= 1);
                        assert(g0.balls@[idx as int] is Some);
                        assert(count_ball(t0, idx) == 1);
                        lemma_count_nonneg(t0.subrange(0, t as int), idx);
                        assert(count_ball(t0.subrange(0, t as int), idx) == 0);
                        assert(self.balls@[idx as int] == g0.balls@[idx as int]);
                        lemma_count_live_remove(self.balls@, idx as int);
                        lemma_count_live_bounds(self.balls@.update(idx as int, None));
                    }
                    self.balls.set(idx, None);
                    self.ball_cnt = self.ball_cnt - 1;
                },
                PhysItem::Wall(w) => {
                    kept.push(PhysItem::Wall(w));
                },
            }
            proof {
                assert forall|k: int| 0 <= k < g0.balls@.len() implies #[trigger] count_ball(
                    t0.subrange(0, t as int + 1),
                    k as usize,
                ) == count_ball(t0.subrange(0, t as int), k as usize) + (if t0[t as int]
                    == PhysItem::Ball(k as usize) {
                    1int
                } else {
                    0int
                }) by {
                    lemma_count_take_step(t0, t as int, k as usize);
                }
            }
            t += 1;
        }
        proof {
            assert(t0.subrange(0, n as int) =~= t0);
        }
        if valid {
            self.grid[id.x][id.y].items = kept;
        } else {
            self.out_of_bounds.items = kept;
        }
        proof {
            let g2 = *self;
            lemma_keep_walls(t0);
            // references stay in range everywhere
            assert forall|i: int, j: int|
                0 <= i < g2.x_units && 0 <= j < g2.y_units implies g2.items_ok_in(
                #[trigger] g2.cell_items(i, j),
            ) by {
                assert(g0.items_ok_in(g0.cell_items(i, j)));
                if valid && i == id.x as int && j == id.y as int {
                    lemma_items_ok_keep_walls(t0, g0.balls@.len() as int, g0.walls@.len() as int);
                } else {
                    assert(g2.cell_items(i, j) == g0.cell_items(i, j));
                }
            }
            assert(g0.items_ok_in(g0.out_of_bounds.items@));
            if !valid {
                lemma_items_ok_keep_walls(t0, g0.balls@.len() as int, g0.walls@.len() as int);
            }
            assert(g2.items_ok_in(g2.out_of_bounds.items@));
            // every surviving ball keeps its single reference; every removed
            // ball is referenced nowhere
            assert forall|k: int| 0 <= k < g2.balls@.len() implies #[trigger] g2.ball_home_ok(
                k,
            ) by {
                assert(g0.ball_home_ok(k));
                match g2.balls@[k] {
                    Some(b) => {
                        // survivor: it was not listed in the cleared cell
                        assert(g2.balls@[k] == g0.balls@[k]);
                        assert(count_ball(t0, k as usize) == 0);
                        assert forall|i: int, j: int|
                            0 <= i < g2.x_units && 0 <= j < g2.y_units && !(i == b.unit_id.x as int
                                && j == b.unit_id.y as int) implies count_ball(
                            #[trigger] g2.cell_items(i, j),
                            k as usize,
                        ) == 0 by {
                            if valid && i == id.x as int && j == id.y as int {
                            } else {
                                assert(g2.cell_items(i, j) == g0.cell_items(i, j));
                            }
                        }
                        if b.unit_id == sentinel_id() {
                            assert(count_ball(g2.out_of_bounds.items@, k as usize) == 1);
                        } else {
                            assert(!(valid && id.x as int == b.unit_id.x as int && id.y as int
                                == b.unit_id.y as int));
                            assert(g2.cell_items(b.unit_id.x as int, b.unit_id.y as int)
                                == g0.cell_items(b.unit_id.x as int, b.unit_id.y as int));
                            assert(count_ball(g2.out_of_bounds.items@, k as usize) == 0);
                        }
                    },
                    None => {
                        assert forall|i: int, j: int|
                            0 <= i < g2.x_units && 0 <= j < g2.y_units implies count_ball(
                            #[trigger] g2.cell_items(i, j),
                            k as usize,
                        ) == 0 by {
                            if valid && i == id.x as int && j == id.y as int {
                            } else {
                                assert(g2.cell_items(i, j) == g0.cell_items(i, j));
                            }
                        }
                        assert(count_ball(g2.out_of_bounds.items@, k as usize) == 0);
                    },
                }
            }
        }
    }

    /// One cell of padding means the cells of the bottom row have row index
    /// `y_units - 1`; this sums the ball references of its first `x` columns.
    pub open spec fn bottom_balls_upto(&self, x: int) -> int
        decreases x,
    {
        if x <= 0 {
            0
        } else {
            self.bottom_balls_upto(x - 1) + count_balls_total(
                self.cell_items(x - 1, self.y_units - 1),
            )
        }
    }

    /// Whether cleanup removes ball `k`: it is referenced from the sentinel
    /// or from a cell of the bottommost row.
    pub open spec fn cleaned(&self, k: int) -> bool {
        count_ball(self.out_of_bounds.items@, k as usize) >= 1 || exists|c: int|
            0 <= c < self.x_units && count_ball(
                #[trigger] self.cell_items(c, self.y_units - 1),
                k as usize,
            ) >= 1
    }

    /// When no live ball is cached in the sentinel or in the bottom row,
    /// neither holds any ball reference, so `cleanup` leaves the live count
    /// unchanged; with one ball cached in each, it drops by exactly two.
    pub proof fn lemma_cleanup_counts_cached(&self)
        requires
            self.wf(),
            forall|k: int|
                0 <= k < self.balls@.len() && (#[trigger] self.balls@[k]) is Some
                    ==> self.balls@[k].unwrap().unit_id != sentinel_id()
                    && self.balls@[k].unwrap().unit_id.y as int != self.y_units - 1,
        ensures
            count_balls_total(self.out_of_bounds.items@) == 0,
            self.bottom_balls_upto(self.x_units as int) == 0,
    {
        lemma_count_nonneg(self.out_of_bounds.items@, 0);
        if count_balls_total(self.out_of_bounds.items@) > 0 {
            lemma_total_pos_contains(self.out_of_bounds.items@);
            let t = choose|t: int|
                0 <= t < self.out_of_bounds.items@.len() && (
                #[trigger] self.out_of_bounds.items@[t]) is Ball;
            let r = self.out_of_bounds.items@[t]->Ball_0;
            assert(self.items_ok_in(self.out_of_bounds.items@));
            assert((r as int) < self.balls@.len());
            assert(self.out_of_bounds.items@.contains(PhysItem::Ball(r)));
            lemma_count_contains(self.out_of_bounds.items@, r);
            assert(self.ball_home_ok(r as int));
            assert(false);
        }
        self.lemma_bottom_row_empty(self.x_units as int);
    }

    /// No cell of the first `x` bottom-row columns holds a ball reference
    /// when no live ball is cached in the bottom row.
    proof fn lemma_bottom_row_empty(&self, x: int)
        requires
            self.wf(),
            0 <= x <= self.x_units,
            forall|k: int|
                0 <= k < self.balls@.len() && (#[trigger] self.balls@[k]) is Some
                    ==> self.balls@[k].unwrap().unit_id != sentinel_id()
                    && self.balls@[k].unwrap().unit_id.y as int != self.y_units - 1,
        ensures
            self.bottom_balls_upto(x) == 0,
        decreases x,
    {
        if x > 0 {
            self.lemma_bottom_row_empty(x - 1);
            let cell = self.cell_items(x - 1, self.y_units - 1);
            lemma_count_nonneg(cell, 0);
            if count_balls_total(cell) > 0 {
                lemma_total_pos_contains(cell);
                let t = choose|t: int| 0 <= t < cell.len() && (#[trigger] cell[t]) is Ball;
                let r = cell[t]->Ball_0;
                assert(self.items_ok_in(cell));
                assert((r as int) < self.balls@.len());
                assert(cell.contains(PhysItem::Ball(r)));
                lemma_count_contains(cell, r);
                assert(self.ball_home_ok(r as int));
                match self.balls@[r as int] {
                    Some(b) => {
                        // a reference here forces the cache to be this cell,
                        // whose row is the bottom row
                        if !(x - 1 == b.unit_id.x as int && self.y_units - 1
                            == b.unit_id.y as int) {
                            assert(count_ball(
                                self.cell_items(x - 1, self.y_units - 1),
                                r,
                            ) == 0);
                        }
                        assert(false);
                    },
                    None => {
                        assert(count_ball(self.cell_items(x - 1, self.y_units - 1), r) == 0);
                        assert(false);
                    },
                }
            }
        }
    }

    /// Removes every ball referenced from the sentinel cell and every ball
    /// referenced from the bottommost row of cells; walls stay.  The live
    /// count drops by exactly the number of references removed.
    #[verifier::loop_isolation(false)]
    pub fn cleanup(&mut self)
        requires
            old(self).wf(),
        ensures
            final(self).wf(),
            final(self).ball_cnt == old(self).ball_cnt - count_balls_total(
                old(self).out_of_bounds.items@,
            ) - old(self).bottom_balls_upto(old(self).x_units as int),
            final(self).walls@ == old(self).walls@,
            final(self).balls@.len() == old(self).balls@.len(),
            forall|k: int|
                0 <= k < old(self).balls@.len() ==> #[trigger] final(self).balls@[k] == (if old(
                    self,
                ).cleaned(k) {
                    None::<Ball>
                } else {
                    old(self).balls@[k]
                }),
            final(self).unit_width == old(self).unit_width,
            final(self).unit_height == old(self).unit_height,
            final(self).x_units == old(self).x_units,
            final(self).y_units == old(self).y_units,
    {
        let ghost g0 = *old(self);
        let sent: SectionId = SectionId { x: usize::MAX, y: usize::MAX };
        proof {
            assert(!g0.valid_cell(sent));
            assert(g0.items_at(sent) == g0.out_of_bounds.items@);
        }
        self.cleanup_section(sent);
        let yb: i64 = self.y_units - 1;
        let mut x: i64 = 0;
        while x < self.x_units
            invariant
                0 <= x <= self.x_units,
                self.wf(),
                self.walls@ == g0.walls@,
                self.balls@.len() == g0.balls@.len(),
                self.unit_width == g0.unit_width,
                self.unit_height == g0.unit_height,
                self.x_units == g0.x_units,
                self.y_units == g0.y_units,
                self.ball_cnt == g0.ball_cnt - count_balls_total(g0.out_of_bounds.items@)
                    - g0.bottom_balls_upto(x as int),
                forall|c: int|
                    x <= c < g0.x_units ==> #[trigger] self.cell_items(c, yb as int)
                        == g0.cell_items(c, yb as int),
                forall|k: int|
                    0 <= k < g0.balls@.len() ==> #[trigger] self.balls@[k] == (if count_ball(
                        g0.out_of_bounds.items@,
                        k as usize,
                    ) >= 1 || (exists|c: int|
                        0 <= c < x && count_ball(
                            #[trigger] g0.cell_items(c, yb as int),
                            k as usize,
                        ) >= 1) {
                        None::<Ball>
                    } else {
                        g0.balls@[k]
                    }),
            decreases self.x_units - x,
        {
            let ghost gpre = *self;
            let id: SectionId = SectionId { x: x as usize, y: yb as usize };
            proof {
                assert(gpre.valid_cell(id));
                assert(gpre.items_at(id) == gpre.cell_items(x as int, yb as int));
                assert(gpre.cell_items(x as int, yb as int) == g0.cell_items(x as int, yb as int));
            }
            self.cleanup_section(id);
            proof {
                assert(g0.balls.len() == g0.balls@.len());
                assert forall|k: int| 0 <= k < g0.balls@.len() implies #[trigger] self.balls@[k]
                    == (if count_ball(g0.out_of_bounds.items@, k as usize) >= 1 || (exists|c: int|
                    0 <= c < x + 1 && count_ball(
                        #[trigger] g0.cell_items(c, yb as int),
                        k as usize,
                    ) >= 1) {
                    None::<Ball>
                } else {
                    g0.balls@[k]
                }) by {
                    if count_ball(g0.cell_items(x as int, yb as int), k as usize) >= 1 {
                        assert(exists|c: int|
                            0 <= c < x + 1 && count_ball(
                                #[trigger] g0.cell_items(c, yb as int),
                                k as usize,
                            ) >= 1);
                    } else if exists|c: int|
                        0 <= c < x && count_ball(
                            #[trigger] g0.cell_items(c, yb as int),
                            k as usize,
                        ) >= 1 {
                        let c = choose|c: int|
                            0 <= c < x && count_ball(
                                #[trigger] g0.cell_items(c, yb as int),
                                k as usize,
                            ) >= 1;
                        assert(0 <= c < x + 1 && count_ball(
                            g0.cell_items(c, yb as int),
                            k as usize,
                        ) >= 1);
                    } else {
                        lemma_count_nonneg(g0.cell_items(x as int, yb as int), k as usize);
                        if exists|c: int|
                            0 <= c < x + 1 && count_ball(
                                #[trigger] g0.cell_items(c, yb as int),
                                k as usize,
                            ) >= 1 {
                            let c = choose|c: int|
                                0 <= c < x + 1 && count_ball(
                                    #[trigger] g0.cell_items(c, yb as int),
                                    k as usize,
                                ) >= 1;
                            assert(c == x as int);
                            assert(false);
                        }
                    }
                }
            }
            x += 1;
        }
        proof {
            assert forall|k: int| 0 <= k < g0.balls@.len() implies #[trigger] self.balls@[k] == (
            if g0.cleaned(k) {
                None::<Ball>
            } else {
                g0.balls@[k]
            }) by {
                assert(x == g0.x_units);
            }
        }
    }

    /// Two ball arenas hold the same balls, each with the same identifier,
    /// cached cell, radius and coefficients; positions and velocities may
    /// differ.
    pub open spec fn same_shape(a: Seq<Option<Ball>>, b: Seq<Option<Ball>>) -> bool {
        &&& b.len() == a.len()
        &&& (forall|k: int| 0 <= k < a.len() ==> ((#[trigger] b[k]) is Some <==> a[k] is Some))
        &&& (forall|k: int|
            0 <= k < a.len() && a[k] is Some ==> (#[trigger] b[k]).unwrap().id
                == a[k].unwrap().id && b[k].unwrap().unit_id == a[k].unwrap().unit_id
                && b[k].unwrap().radius == a[k].unwrap().radius && b[k].unwrap().friction
                == a[k].unwrap().friction && b[k].unwrap().restitution
                == a[k].unwrap().restitution)
    }

    /// Writes a live ball back into its arena slot; only its position and
    /// velocity may differ from the stored ball.
    fn store_ball(&mut self, idx: usize, b: Ball)
        requires
            old(self).wf(),
            idx < old(self).balls@.len(),
            old(self).balls@[idx as int] is Some,
            b.wf(),
            b.unit_id == old(self).balls@[idx as int].unwrap().unit_id,
        ensures
            final(self).wf(),
            final(self).balls@ == old(self).balls@.update(idx as int, Some(b)),
            final(self).ball_cnt == old(self).ball_cnt,
            final(self).walls@ == old(self).walls@,
            final(self).out_of_bounds == old(self).out_of_bounds,
            final(self).grid@ == old(self).grid@,
            final(self).unit_width == old(self).unit_width,
            final(self).unit_height == old(self).unit_height,
            final(self).x_units == old(self).x_units,
            final(self).y_units == old(self).y_units,
    {
        let ghost g0 = *old(self);
        proof {
            lemma_count_live_update_some(self.balls@, idx as int, b);
        }
        self.balls.set(idx, Some(b));
        proof {
            let g2 = *self;
            assert forall|i: int, j: int|
                0 <= i < g2.x_units && 0 <= j < g2.y_units implies g2.items_ok_in(
                #[trigger] g2.cell_items(i, j),
            ) by {
                assert(g0.items_ok_in(g0.cell_items(i, j)));
            }
            assert(g0.items_ok_in(g0.out_of_bounds.items@));
            assert forall|k: int| 0 <= k < g2.balls@.len() implies #[trigger] g2.ball_home_ok(
                k,
            ) by {
                assert(g0.ball_home_ok(k));
                match g2.balls@[k] {
                    Some(nb) => {
                        assert(nb.unit_id == g0.balls@[k].unwrap().unit_id);
                        assert forall|i: int, j: int|
                            0 <= i < g2.x_units && 0 <= j < g2.y_units && !(i == nb.unit_id.x as int
                                && j == nb.unit_id.y as int) implies count_ball(
                            #[trigger] g2.cell_items(i, j),
                            k as usize,
                        ) == 0 by {
                            assert(g2.cell_items(i, j) == g0.cell_items(i, j));
                        }
                        if nb.unit_id != sentinel_id() {
                            assert(g2.cell_items(nb.unit_id.x as int, nb.unit_id.y as int)
                                == g0.cell_items(nb.unit_id.x as int, nb.unit_id.y as int));
                        }
                    },
                    None => {
                        assert forall|i: int, j: int|
                            0 <= i < g2.x_units && 0 <= j < g2.y_units implies count_ball(
                            #[trigger] g2.cell_items(i, j),
                            k as usize,
                        ) == 0 by {
                            assert(g2.cell_items(i, j) == g0.cell_items(i, j));
                        }
                    },
                }
            }
        }
    }

    /// One body reference resolved against the ball being scanned: an
    /// already-handled identifier or a removed ball leaves the state as it
    /// is; otherwise the pair collides and the identifier is marked handled.
    pub open spec fn resolve_item(
        &self,
        balls: Seq<Option<Ball>>,
        handled: Seq<usize>,
        idx: int,
        item: PhysItem,
    ) -> (Seq<Option<Ball>>, Seq<usize>) {
        match item {
            PhysItem::Ball(o) => {
                if handled.contains(o) || !(0 <= o < balls.len()) || !(balls[o as int] is Some) {
                    (balls, handled)
                } else {
                    let pair = crate::items::ball_collision_spec(
                        balls[idx].unwrap(),
                        balls[o as int].unwrap(),
                    );
                    (
                        balls.update(idx, Some(pair.0)).update(o as int, Some(pair.1)),
                        handled.push(o),
                    )
                }
            },
            PhysItem::Wall(o) => {
                if handled.contains(o) {
                    (balls, handled)
                } else {
                    let nb = crate::items::wall_collision_spec(
                        balls[idx].unwrap(),
                        self.walls@[o as int],
                    );
                    (balls.update(idx, Some(nb)), handled.push(o))
                }
            },
        }
    }

    /// The first `t` references of one cell's item list resolved in order.
    pub open spec fn resolve_items(
        &self,
        st: (Seq<Option<Ball>>, Seq<usize>),
        idx: int,
        items: Seq<PhysItem>,
        t: int,
    ) -> (Seq<Option<Ball>>, Seq<usize>)
        decreases t,
    {
        if t <= 0 {
            st
        } else {
            let prev = self.resolve_items(st, idx, items, t - 1);
            self.resolve_item(prev.0, prev.1, idx, items[t - 1])
        }
    }

    /// One cell of the neighbourhood resolved; out-of-range coordinates are
    /// skipped.
    pub open spec fn resolve_cell(
        &self,
        st: (Seq<Option<Ball>>, Seq<usize>),
        idx: int,
        x: int,
        y: int,
    ) -> (Seq<Option<Ball>>, Seq<usize>) {
        if 0 <= x < self.x_units && 0 <= y < self.y_units {
            self.resolve_items(st, idx, self.cell_items(x, y), self.cell_items(x, y).len() as int)
        } else {
            st
        }
    }

    /// The first `j` rows of one neighbourhood column resolved.
    pub open spec fn resolve_rows(
        &self,
        st: (Seq<Option<Ball>>, Seq<usize>),
        idx: int,
        x: int,
        y_unit: int,
        j: int,
    ) -> (Seq<Option<Ball>>, Seq<usize>)
        decreases j,
    {
        if j <= 0 {
            st
        } else {
            self.resolve_cell(self.resolve_rows(st, idx, x, y_unit, j - 1), idx, x, y_unit - 1 + (
            j - 1))
        }
    }

    /// The first `i` columns of the 3x3 neighbourhood resolved.
    pub open spec fn resolve_neighborhood(
        &self,
        st: (Seq<Option<Ball>>, Seq<usize>),
        idx: int,
        x_unit: int,
        y_unit: int,
        i: int,
    ) -> (Seq<Option<Ball>>, Seq<usize>)
        decreases i,
    {
        if i <= 0 {
            st
        } else {
            self.resolve_rows(
                self.resolve_neighborhood(st, idx, x_unit, y_unit, i - 1),
                idx,
                x_unit - 1 + (i - 1),
                y_unit,
                3,
            )
        }
    }

    /// One ball's full neighbourhood scan: a removed slot is skipped; a live
    /// ball starts with itself marked handled and scans the 3x3 cells around
    /// the cell of its current position.
    pub open spec fn scan_ball(&self, balls: Seq<Option<Ball>>, idx: int) -> Seq<Option<Ball>> {
        match balls[idx] {
            None => balls,
            Some(b) => self.resolve_neighborhood(
                (balls, seq![idx as usize]),
                idx,
                self.cell_x(b.position.x as int),
                self.cell_y(b.position.y as int),
                3,
            ).0,
        }
    }

    /// The scans of the first `n` ball slots, in identifier order.
    pub open spec fn scan_all(&self, balls: Seq<Option<Ball>>, n: int) -> Seq<Option<Ball>>
        decreases n,
    {
        if n <= 0 {
            balls
        } else {
            self.scan_ball(self.scan_all(balls, n - 1), n - 1)
        }
    }

    /// For every live ball, scans the 3x3 neighbourhood of cells around it
    /// and resolves a collision with every ball or wall referenced there,
    /// each pair at most once per scan.  Balls are neither created nor
    /// removed; identifiers, radii, coefficients and cached cells are
    /// untouched; only positions and velocities change, exactly as the
    /// per-slot scans prescribe.
    /// Resolves every reference of one valid cell against ball `idx`,
    /// exactly as `resolve_items` prescribes over the cell's item list.
    #[verifier::loop_isolation(false)]
    #[verifier::rlimit(60)]
    fn resolve_cell_refs(
        &mut self,
        idx: usize,
        x: i64,
        y: i64,
        handled: &mut Vec<usize>,
        Ghost(g0): Ghost<Grid>,
    )
        requires
            old(self).wf(),
            g0.grid@ == old(self).grid@,
            g0.walls@ == old(self).walls@,
            g0.x_units == old(self).x_units,
            g0.y_units == old(self).y_units,
            g0.balls@.len() == old(self).balls@.len(),
            0 <= x < old(self).x_units,
            0 <= y < old(self).y_units,
            idx < old(self).balls@.len(),
            old(self).balls@[idx as int] is Some,
        ensures
            final(self).wf(),
            (final(self).balls@, final(handled)@) == g0.resolve_cell(
                (old(self).balls@, old(handled)@),
                idx as int,
                x as int,
                y as int,
            ),
            Grid::same_shape(old(self).balls@, final(self).balls@),
            final(self).ball_cnt == old(self).ball_cnt,
            final(self).walls@ == old(self).walls@,
            final(self).out_of_bounds == old(self).out_of_bounds,
            final(self).grid@ == old(self).grid@,
            final(self).unit_width == old(self).unit_width,
            final(self).unit_height == old(self).unit_height,
            final(self).x_units == old(self).x_units,
            final(self).y_units == old(self).y_units,
            final(self).balls@[idx as int] is Some,
    {
        let ghost gs = *old(self);
        let ghost st_in = (old(self).balls@, old(handled)@);
        let items: Vec<PhysItem> = self.grid[x as usize][y as usize].items.clone();
        proof {
            assert(items@ =~= self.cell_items(x as int, y as int));
            assert(g0.cell_items(x as int, y as int) == gs.cell_items(x as int, y as int));
        }
        let m: usize = items.len();
        let mut t: usize = 0;
        while t < m
            invariant
                t <= m,
                m == items@.len(),
                items@ == g0.cell_items(x as int, y as int),
                (self.balls@, handled@) == g0.resolve_items(st_in, idx as int, items@, t as int),
                self.wf(),
                Grid::same_shape(gs.balls@, self.balls@),
                self.ball_cnt == gs.ball_cnt,
                self.walls@ == gs.walls@,
                self.out_of_bounds == gs.out_of_bounds,
                self.grid@ == gs.grid@,
                self.unit_width == gs.unit_width,
                self.unit_height == gs.unit_height,
                self.x_units == gs.x_units,
                self.y_units == gs.y_units,
                self.balls@[idx as int] is Some,
            decreases m - t,
        {
            let ghost pb = self.balls@;
            let ghost ph = handled@;
            proof {
                assert(gs.items_ok_in(gs.cell_items(x as int, y as int)));
                assert(match items@[t as int] {
                    PhysItem::Ball(r) => (r as int) < gs.balls@.len(),
                    PhysItem::Wall(w) => (w as int) < gs.walls@.len(),
                });
            }
            match items[t] {
                PhysItem::Ball(o_idx) => {
                    if !contains_usize(handled, o_idx) {
                        let o_present: bool = match self.balls[o_idx] {
                            Some(_) => true,
                            None => false,
                        };
                        if o_present {
                            let mut b1: Ball = self.balls[idx].unwrap();
                            let mut b2: Ball = self.balls[o_idx].unwrap();
                            proof {
                                assert(self.ball_home_ok(idx as int));
                                assert(self.ball_home_ok(o_idx as int));
                            }
                            b1.ball_collision(&mut b2);
                            self.store_ball(idx, b1);
                            self.store_ball(o_idx, b2);
                            handled.push(o_idx);
                        }
                    }
                },
                PhysItem::Wall(o_idx) => {
                    if !contains_usize(handled, o_idx) {
                        let mut b1: Ball = self.balls[idx].unwrap();
                        proof {
                            assert(self.ball_home_ok(idx as int));
                            assert(self.wf_walls());
                            assert(self.walls@[o_idx as int].wf());
                        }
                        b1.wall_collision(&self.walls[o_idx]);
                        self.store_ball(idx, b1);
                        handled.push(o_idx);
                    }
                },
            }
            proof {
                assert((self.balls@, handled@) == g0.resolve_item(
                    pb,
                    ph,
                    idx as int,
                    items@[t as int],
                ));
                assert(g0.resolve_items(st_in, idx as int, items@, t + 1) == g0.resolve_item(
                    pb,
                    ph,
                    idx as int,
                    items@[t as int],
                ));
            }
            t += 1;
        }
        proof {
            assert(g0.resolve_cell(st_in, idx as int, x as int, y as int) == g0.resolve_items(
                st_in,
                idx as int,
                items@,
                m as int,
            ));
        }
    }

    #[verifier::loop_isolation(false)]
    #[verifier::rlimit(30)]
    pub fn handle_collisions(&mut self)
        requires
            old(self).wf(),
        ensures
            final(self).wf(),
            final(self).balls@ == old(self).scan_all(
                old(self).balls@,
                old(self).balls@.len() as int,
            ),
            Grid::same_shape(old(self).balls@, final(self).balls@),
            final(self).ball_cnt == old(self).ball_cnt,
            final(self).walls@ == old(self).walls@,
            final(self).out_of_bounds == old(self).out_of_bounds,
            final(self).grid@ == old(self).grid@,
            final(self).unit_width == old(self).unit_width,
            final(self).unit_height == old(self).unit_height,
            final(self).x_units == old(self).x_units,
            final(self).y_units == old(self).y_units,
    {
        let ghost g0 = *old(self);
        let n: usize = self.balls.len();
        let mut idx: usize = 0;
        while idx < n
            invariant
                idx <= n,
                self.wf(),
                self.balls@ == g0.scan_all(g0.balls@, idx as int),
                Grid::same_shape(g0.balls@, self.balls@),
                self.ball_cnt == g0.ball_cnt,
                self.walls@ == g0.walls@,
                self.out_of_bounds == g0.out_of_bounds,
                self.grid@ == g0.grid@,
                self.unit_width == g0.unit_width,
                self.unit_height == g0.unit_height,
                self.x_units == g0.x_units,
                self.y_units == g0.y_units,
                n == g0.balls@.len(),
            decreases n - idx,
        {
            let ghost bstart = self.balls@;
            let present: bool = match self.balls[idx] {
                Some(_) => true,
                None => false,
            };
            if present {
                let ball: Ball = self.balls[idx].unwrap();
                proof {
                    assert(self.ball_home_ok(idx as int));
                }
                let x_unit: i64 = crate::num::floor_div(
                    ball.position.x + self.unit_width * SCALE,
                    self.unit_width * SCALE,
                );
                let y_unit: i64 = crate::num::floor_div(
                    ball.position.y + self.unit_height * SCALE,
                    self.unit_height * SCALE,
                );
                proof {
                    assert(x_unit == g0.cell_x(ball.position.x as int));
                    assert(y_unit == g0.cell_y(ball.position.y as int));
                }
                let mut handled: Vec<usize> = Vec::new();
                handled.push(idx);
                proof {
                    assert(handled@ =~= seq![idx]);
                }
                let ghost st0 = (bstart, seq![idx]);
                let mut x: i64 = x_unit - 1;
                while x < x_unit + 2
                    invariant
                        x_unit - 1 <= x <= x_unit + 2,
                        (self.balls@, handled@) == g0.resolve_neighborhood(
                            st0,
                            idx as int,
                            x_unit as int,
                            y_unit as int,
                            x + 1 - x_unit,
                        ),
                        self.wf(),
                        Grid::same_shape(g0.balls@, self.balls@),
                        self.ball_cnt == g0.ball_cnt,
                        self.walls@ == g0.walls@,
                        self.out_of_bounds == g0.out_of_bounds,
                        self.grid@ == g0.grid@,
                        self.unit_width == g0.unit_width,
                        self.unit_height == g0.unit_height,
                        self.x_units == g0.x_units,
                        self.y_units == g0.y_units,
                        n == g0.balls@.len(),
                        self.balls@[idx as int] is Some,
                    decreases x_unit + 2 - x,
                {
                    let ghost col_st = (self.balls@, handled@);
                    let mut y: i64 = y_unit - 1;
                    while y < y_unit + 2
                        invariant
                            y_unit - 1 <= y <= y_unit + 2,
                            (self.balls@, handled@) == g0.resolve_rows(
                                col_st,
                                idx as int,
                                x as int,
                                y_unit as int,
                                y + 1 - y_unit,
                            ),
                            self.wf(),
                            Grid::same_shape(g0.balls@, self.balls@),
                            self.ball_cnt == g0.ball_cnt,
                            self.walls@ == g0.walls@,
                            self.out_of_bounds == g0.out_of_bounds,
                            self.grid@ == g0.grid@,
                            self.unit_width == g0.unit_width,
                            self.unit_height == g0.unit_height,
                            self.x_units == g0.x_units,
                            self.y_units == g0.y_units,
                            n == g0.balls@.len(),
                            self.balls@[idx as int] is Some,
                        decreases y_unit + 2 - y,
                    {
                        let ghost row_st = (self.balls@, handled@);
                        if x >= 0 && x < self.x_units && y >= 0 && y < self.y_units {
                            self.resolve_cell_refs(idx, x, y, &mut handled, Ghost(g0));
                        } else {
                            proof {
                                assert(g0.resolve_cell(row_st, idx as int, x as int, y as int)
                                    == row_st);
                            }
                        }
                        proof {
                            assert(g0.resolve_rows(
                                col_st,
                                idx as int,
                                x as int,
                                y_unit as int,
                                y + 2 - y_unit,
                            ) == g0.resolve_cell(row_st, idx as int, x as int, y as int));
                        }
                        y += 1;
                    }
                    proof {
                        assert(g0.resolve_neighborhood(
                            st0,
                            idx as int,
                            x_unit as int,
                            y_unit as int,
                            x + 2 - x_unit,
                        ) == g0.resolve_rows(col_st, idx as int, x as int, y_unit as int, 3));
                    }
                    x += 1;
                }
                proof {
                    assert(g0.scan_ball(bstart, idx as int) == g0.resolve_neighborhood(
                        st0,
                        idx as int,
                        x_unit as int,
                        y_unit as int,
                        3,
                    ).0);
                    assert(g0.scan_all(g0.balls@, idx + 1) == g0.scan_ball(bstart, idx as int));
                }
            } else {
                proof {
                    assert(g0.scan_ball(bstart, idx as int) == bstart);
                    assert(g0.scan_all(g0.balls@, idx + 1) == g0.scan_ball(bstart, idx as int));
                }
            }
            idx += 1;
        }
    }

    /// Adding a ball and then querying the cell of its position yields the
    /// cell the ball was inserted into: in a well-formed grid, the section a
    /// position maps to carries exactly the id of the cell computed from
    /// that position — the id `add_ball` caches on the ball and registers
    /// its reference in.
    pub proof fn lemma_cell_query_consistent(&self, pos: Vec2)
        requires
            self.wf_dims(),
        ensures
            self.section_of(self.cell_of(pos)).id == self.cell_of(pos),
    {
        let id = self.cell_of(pos);
        if !self.valid_cell(id) {
            assert(id == sentinel_id());
        }
    }

    /// One frame of a ball's motion: position advanced and velocity clamped,
    /// then gravity applied, both over the same delta.
    pub open spec fn integrated(b: Ball, dt: int) -> Ball {
        crate::items::apply_force_spec(
            crate::items::move_ball_spec(b, dt),
            Vec2 { x: crate::items::GRAVITY_X, y: crate::items::GRAVITY_Y },
            dt,
        )
    }

    /// Advances every live ball by one frame: position by `velocity * dt`,
    /// velocity clamped and then accelerated by gravity, and the ball's cell
    /// membership reconciled.  Rendering is left to the caller, which may
    /// read the balls and walls between frames.
    #[verifier::loop_isolation(false)]
    pub fn draw_frame(&mut self, dt: i64)
        requires
            old(self).wf(),
            0 <= dt <= crate::items::DT_LIMIT,
        ensures
            final(self).wf(),
            final(self).walls@ == old(self).walls@,
            final(self).ball_cnt == old(self).ball_cnt,
            final(self).balls@.len() == old(self).balls@.len(),
            final(self).unit_width == old(self).unit_width,
            final(self).unit_height == old(self).unit_height,
            final(self).x_units == old(self).x_units,
            final(self).y_units == old(self).y_units,
            forall|k: int|
                0 <= k < old(self).balls@.len() ==> ((#[trigger] final(self).balls@[k]) is Some
                    <==> old(self).balls@[k] is Some),
            forall|k: int|
                0 <= k < old(self).balls@.len() && old(self).balls@[k] is Some ==> (
                #[trigger] final(self).balls@[k]) == Some(
                    Ball {
                        unit_id: old(self).cell_of(
                            Grid::integrated(old(self).balls@[k].unwrap(), dt as int).position,
                        ),
                        ..Grid::integrated(old(self).balls@[k].unwrap(), dt as int)
                    },
                ),
    {
        let ghost g0 = *old(self);
        let gravity: Vec2 = Vec2 {
            x: crate::items::GRAVITY_X,
            y: crate::items::GRAVITY_Y,
        };
        let n: usize = self.balls.len();
        let mut idx: usize = 0;
        while idx < n
            invariant
                idx <= n,
                n == g0.balls@.len(),
                self.wf(),
                self.walls@ == g0.walls@,
                self.ball_cnt == g0.ball_cnt,
                self.balls@.len() == g0.balls@.len(),
                self.unit_width == g0.unit_width,
                self.unit_height == g0.unit_height,
                self.x_units == g0.x_units,
                self.y_units == g0.y_units,
                forall|k: int|
                    0 <= k < g0.balls@.len() ==> ((#[trigger] self.balls@[k]) is Some <==> g0.balls@[k] is Some),
                forall|k: int|
                    idx <= k < g0.balls@.len() ==> (#[trigger] self.balls@[k]) == g0.balls@[k],
                forall|k: int|
                    0 <= k < idx && g0.balls@[k] is Some ==> (#[trigger] self.balls@[k]) == Some(
                        Ball {
                            unit_id: g0.cell_of(
                                Grid::integrated(g0.balls@[k].unwrap(), dt as int).position,
                            ),
                            ..Grid::integrated(g0.balls@[k].unwrap(), dt as int)
                        },
                    ),
            decreases n - idx,
        {
            let present: bool = match self.balls[idx] {
                Some(_) => true,
                None => false,
            };
            if present {
                let mut b: Ball = self.balls[idx].unwrap();
                proof {
                    assert(self.ball_home_ok(idx as int));
                }
                b.move_ball(Some(dt));
                b.apply_force(gravity, Some(dt));
                self.store_ball(idx, b);
                self.move_ball(idx);
            }
            idx += 1;
        }
    }

    /// Counts every live ball whose vertical position has crossed the given
    /// threshold into the column counter its horizontal position falls in;
    /// out-of-range columns are ignored.
    #[verifier::loop_isolation(false)]
    pub fn update_boxes(&self, boxes: &mut Vec<i64>, box_size: i64, window_height: i64)
        requires
            self.wf(),
            box_size > 0,
            0 <= window_height <= UNIT_LIMIT * DIM_LIMIT,
            forall|t: int|
                0 <= t < old(boxes)@.len() ==> 0 <= #[trigger] old(boxes)@[t] && old(boxes)@[t]
                    + self.balls@.len() <= i64::MAX,
        ensures
            final(boxes)@ == self.boxes_after(
                old(boxes)@,
                box_size as int,
                window_height as int,
                self.balls@.len() as int,
            ),
    {
        let ghost b0 = old(boxes)@;
        let n: usize = self.balls.len();
        proof {
            self.lemma_boxes_after_bounds(b0, box_size as int, window_height as int, 0);
        }
        let mut idx: usize = 0;
        while idx < n
            invariant
                idx <= n,
                n == self.balls@.len(),
                boxes@ == self.boxes_after(b0, box_size as int, window_height as int, idx as int),
            decreases n - idx,
        {
            proof {
                self.lemma_boxes_after_bounds(
                    b0,
                    box_size as int,
                    window_height as int,
                    idx as int,
                );
            }
            let present: bool = match self.balls[idx] {
                Some(_) => true,
                None => false,
            };
            if present {
                let b: Ball = self.balls[idx].unwrap();
                proof {
                    assert(self.ball_home_ok(idx as int));
                }
                if b.position.y > window_height * SCALE {
                    let box_pos: i64 = div_fp(div_fp(b.position.x, SCALE), box_size);
                    if box_pos >= 0 && (box_pos as usize) < boxes.len() {
                        let v: i64 = boxes[box_pos as usize];
                        boxes.set(box_pos as usize, v + 1);
                    }
                }
            }
            idx += 1;
        }
    }

    /// The column counters after the first `n` ball slots are inspected.
    pub open spec fn boxes_after(
        &self,
        boxes: Seq<i64>,
        box_size: int,
        window_height: int,
        n: int,
    ) -> Seq<i64>
        decreases n,
    {
        if n <= 0 {
            boxes
        } else {
            let prev = self.boxes_after(boxes, box_size, window_height, n - 1);
            match self.balls@[n - 1] {
                Some(b) => {
                    if b.position.y > window_height * SCALE {
                        let bp = div_t(div_t(b.position.x as int, SCALE as int), box_size);
                        if 0 <= bp < prev.len() {
                            prev.update(bp, (prev[bp] + 1) as i64)
                        } else {
                            prev
                        }
                    } else {
                        prev
                    }
                },
                None => prev,
            }
        }
    }

    /// Each counter grows by at most one per inspected ball.
    pub proof fn lemma_boxes_after_bounds(
        &self,
        boxes: Seq<i64>,
        box_size: int,
        window_height: int,
        n: int,
    )
        requires
            0 <= n <= self.balls@.len(),
            forall|t: int|
                0 <= t < boxes.len() ==> #[trigger] boxes[t] + self.balls@.len() <= i64::MAX,
        ensures
            self.boxes_after(boxes, box_size, window_height, n).len() == boxes.len(),
            forall|t: int|
                0 <= t < boxes.len() ==> boxes[t] <= #[trigger] self.boxes_after(
                    boxes,
                    box_size,
                    window_height,
                    n,
                )[t] <= boxes[t] + n,
        decreases n,
    {
        if n > 0 {
            self.lemma_boxes_after_bounds(boxes, box_size, window_height, n - 1);
        }
    }

    /// A shared view of the cell at grid coordinates `(x, y)`; out-of-range
    /// coordinates yield the sentinel.
    pub fn get_section(&self, x: i64, y: i64) -> (r: &Section)
        requires
            self.wf_dims(),
        ensures
            (0 <= x < self.x_units && 0 <= y < self.y_units) ==> *r == self.grid@[x as int]@[y as int],
            !(0 <= x < self.x_units && 0 <= y < self.y_units) ==> *r == self.out_of_bounds,
    {
        if x < 0 || x >= self.x_units || y < 0 || y >= self.y_units {
            return &self.out_of_bounds;
        }
        &self.grid[x as usize][y as usize]
    }

    /// The cell id of a world position.
    pub fn cell_of_position(&self, x: i64, y: i64) -> (r: SectionId)
        requires
            self.wf_dims(),
            abs_i(x as int) <= COORD_LIMIT,
            abs_i(y as int) <= COORD_LIMIT,
        ensures
            r == self.cell_of(Vec2 { x, y }),
            r == sentinel_id() || self.valid_cell(r),
    {
        let uw_t: i64 = self.unit_width * SCALE;
        let uh_t: i64 = self.unit_height * SCALE;
        let cx: i64 = crate::num::floor_div(x + uw_t, uw_t);
        let cy: i64 = crate::num::floor_div(y + uh_t, uh_t);
        if 0 <= cx && cx < self.x_units && 0 <= cy && cy < self.y_units {
            SectionId { x: cx as usize, y: cy as usize }
        } else {
            SectionId { x: usize::MAX, y: usize::MAX }
        }
    }

    /// A shared view of the cell a world position belongs to.
    pub fn get_section_at_position(&self, x: i64, y: i64) -> (r: &Section)
        requires
            self.wf_dims(),
            abs_i(x as int) <= COORD_LIMIT,
            abs_i(y as int) <= COORD_LIMIT,
        ensures
            *r == self.section_of(self.cell_of(Vec2 { x, y })),
            r.id == self.cell_of(Vec2 { x, y }),
    {
        let id: SectionId = self.cell_of_position(x, y);
        if id.x == usize::MAX && id.y == usize::MAX {
            return &self.out_of_bounds;
        }
        &self.grid[id.x][id.y]
    }
}

} // verus!
