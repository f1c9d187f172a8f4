use vstd::prelude::*;
use crate::brick::Brick;
use crate::config::{CEILING, MAX_SPEED, SIDE_MARGIN, SUBPIXELS, WINDOW_HEIGHT, WINDOW_WIDTH};
use crate::geometry::{boxes_meet, boxes_overlap, Rect};

verus! {

/// `a`, held to the range of `i64`.
pub open spec fn sat(a: int) -> int {
    if a > i64::MAX {
        i64::MAX as int
    } else if a < i64::MIN {
        i64::MIN as int
    } else {
        a
    }
}

/// `a + b`, held to the range of `i64`.
fn sat_add(a: i64, b: i64) -> (r: i64)
    ensures
        r == sat(a + b),
{
    let s = a as i128 + b as i128;
    if s > i64::MAX as i128 {
        i64::MAX
    } else if s < i64::MIN as i128 {
        i64::MIN
    } else {
        s as i64
    }
}

/// The whole pixel that the milli-pixel coordinate `v` lies in, rounded
/// towards zero and held to the range of `i32`.
pub open spec fn to_pixel(v: int) -> int {
    let p = if v >= 0 {
        v / SUBPIXELS as int
    } else {
        -((-v) / SUBPIXELS as int)
    };
    if p > i32::MAX {
        i32::MAX as int
    } else if p < i32::MIN {
        i32::MIN as int
    } else {
        p
    }
}

fn pixel_of(v: i64) -> (r: i32)
    ensures
        r as int == to_pixel(v as int),
{
    let m = if v >= 0 {
        (v as u64) / (SUBPIXELS as u64)
    } else {
        ((-(v as i128)) as u64) / (SUBPIXELS as u64)
    };
    if v >= 0 {
        if m > i32::MAX as u64 {
            i32::MAX
        } else {
            m as i32
        }
    } else {
        if m > 2147483648u64 {
            i32::MIN
        } else {
            (-(m as i64)) as i32
        }
    }
}

/// Hit points left after a hit of `damage`, held to the range of `i32`.
pub open spec fn worn(life: i32, damage: u32) -> i32 {
    if life - damage < i32::MIN {
        i32::MIN
    } else {
        (life - damage) as i32
    }
}

/// A projectile: position of its top-left corner and velocity per tick, both
/// in milli-pixels.
#[derive(Clone, Copy, Debug, PartialEq, Eq, Structural)]
pub struct Ball {
    pub x: i64,
    pub y: i64,
    pub vx: i64,
    pub vy: i64,
}

/// Index of the first brick of `bricks` that the probe of `b` meets, or the
/// length of `bricks` when it meets none.
pub open spec fn first_hit(b: Ball, size: u32, bricks: Seq<Brick>) -> int
    decreases bricks.len(),
{
    if bricks.len() == 0 {
        0
    } else if b.probe_meets(size, bricks[0].rect) {
        0
    } else {
        1 + first_hit(b, size, bricks.drop_first())
    }
}

proof fn lemma_first_hit_bounds(b: Ball, size: u32, bricks: Seq<Brick>)
    ensures
        0 <= first_hit(b, size, bricks) <= bricks.len(),
    decreases bricks.len(),
{
    if bricks.len() > 0 {
        lemma_first_hit_bounds(b, size, bricks.drop_first());
    }
}

proof fn lemma_first_hit(b: Ball, size: u32, bricks: Seq<Brick>, i: int)
    requires
        0 <= i <= bricks.len(),
        forall|j: int| 0 <= j < i ==> !b.probe_meets(size, #[trigger] bricks[j].rect),
        i == bricks.len() || b.probe_meets(size, bricks[i].rect),
    ensures
        first_hit(b, size, bricks) == i,
    decreases i,
{
    if i > 0 {
        let rest = bricks.drop_first();
        assert forall|j: int| 0 <= j < i - 1 implies !b.probe_meets(size, #[trigger] rest[j].rect) by {
            assert(rest[j] == bricks[j + 1]);
        }
        if i < bricks.len() {
            assert(rest[i - 1] == bricks[i]);
        }
        lemma_first_hit(b, size, rest, i - 1);
        assert(!b.probe_meets(size, bricks[0].rect));
    }
}

impl Ball {
    /// Velocities can be negated.
    pub open spec fn wf(self) -> bool {
        self.vx > i64::MIN && self.vy > i64::MIN
    }

    /// Horizontal position after moving by the current velocity.
    pub open spec fn next_x(self) -> int {
        sat(self.x + self.vx)
    }

    /// Vertical position after moving by the current velocity.
    pub open spec fn next_y(self) -> int {
        sat(self.y + self.vy)
    }

    /// The projectile has reached the bottom edge of the arena.
    pub open spec fn expired(self) -> bool {
        self.y >= WINDOW_HEIGHT * SUBPIXELS
    }

    /// Right-hand threshold of the playfield for a projectile of diameter `size`.
    pub open spec fn right_bound(size: u32) -> int {
        (WINDOW_WIDTH - size - SIDE_MARGIN) * SUBPIXELS
    }

    /// The next position crosses the left or the right border.
    pub open spec fn hits_side(self, size: u32) -> bool {
        self.next_x() <= SIDE_MARGIN * SUBPIXELS || self.next_x() >= Self::right_bound(size)
    }

    /// The next position crosses the ceiling.
    pub open spec fn hits_ceiling(self) -> bool {
        self.next_y() <= CEILING * SUBPIXELS
    }

    /// The box of diameter `size` at the next position overlaps the brick box `r`.
    pub open spec fn probe_meets(self, size: u32, r: Rect) -> bool {
        boxes_meet(
            self.next_x(),
            self.next_y(),
            size * SUBPIXELS,
            size * SUBPIXELS,
            r.x * SUBPIXELS,
            r.y * SUBPIXELS,
            r.w * SUBPIXELS,
            r.h * SUBPIXELS,
        )
    }

    /// A hit on brick box `r` reverses the horizontal velocity: the projectile
    /// moves towards the brick's centre and the two overlap vertically.
    /// Otherwise the vertical velocity is reversed.
    ///
    /// This is the axis rule chosen for corner cases: both tests use the
    /// projectile's current position, not the probe at its next position. The
    /// horizontal test compares the brick's centre with the projectile's left
    /// edge `x`. The vertical test asks whether the brick's top and bottom edges
    /// both lie within half a diameter of the projectile's top edge `y`.
    pub open spec fn turns_sideways(self, size: u32, r: Rect) -> bool {
        let cx = r.center_x() * SUBPIXELS;
        let half = (size / 2) * SUBPIXELS;
        &&& (self.vx > 0 && cx > self.x) || (self.vx < 0 && cx < self.x)
        &&& r.y * SUBPIXELS <= self.y + half
        &&& self.y - half <= r.bottom() * SUBPIXELS
    }

    /// The projectile moved by the velocity `(vx, vy)`, which it keeps.
    pub open spec fn moved_by(self, vx: int, vy: int) -> Ball {
        Ball { x: sat(self.x + vx) as i64, y: sat(self.y + vy) as i64, vx: vx as i64, vy: vy as i64 }
    }

    /// The projectile after one tick among `bricks`, with diameter `size`.
    pub open spec fn after_tick(self, size: u32, bricks: Seq<Brick>) -> Ball {
        let i = first_hit(self, size, bricks);
        if self.expired() {
            self
        } else if self.hits_side(size) {
            Ball { vx: -self.vx as i64, ..self.moved_by(self.vx as int, self.vy as int) }
        } else if self.hits_ceiling() {
            Ball { vy: -self.vy as i64, ..self.moved_by(self.vx as int, self.vy as int) }
        } else if i < bricks.len() {
            if self.turns_sideways(size, bricks[i].rect) {
                self.moved_by(-self.vx, self.vy as int)
            } else {
                self.moved_by(self.vx as int, -self.vy)
            }
        } else {
            self.moved_by(self.vx as int, self.vy as int)
        }
    }

    /// The bricks after one tick of this projectile: the first brick met, if
    /// the projectile gets that far, loses `damage` hit points.
    pub open spec fn bricks_after_tick(self, size: u32, bricks: Seq<Brick>, damage: u32) -> Seq<
        Brick,
    > {
        let i = first_hit(self, size, bricks);
        if self.expired() || self.hits_side(size) || self.hits_ceiling() || i >= bricks.len() {
            bricks
        } else {
            bricks.update(i, Brick { life: worn(bricks[i].life, damage), ..bricks[i] })
        }
    }

    /// Lowest horizontal position that a projectile in play can take.
    pub open spec fn play_left() -> int {
        SIDE_MARGIN * SUBPIXELS - 3 * MAX_SPEED
    }

    /// Highest horizontal position that a projectile in play can take.
    pub open spec fn play_right() -> int {
        (WINDOW_WIDTH - SIDE_MARGIN) * SUBPIXELS + 3 * MAX_SPEED
    }

    /// Highest vertical position (smallest `y`) that a projectile in play can take.
    pub open spec fn play_top() -> int {
        CEILING * SUBPIXELS - 3 * MAX_SPEED
    }

    /// The projectile is within the arena and so is the position its velocity
    /// points at, with a speed of at most `MAX_SPEED` along each axis.
    pub open spec fn in_play(self) -> bool {
        &&& -MAX_SPEED <= self.vx <= MAX_SPEED
        &&& -MAX_SPEED <= self.vy <= MAX_SPEED
        &&& Self::play_left() <= self.x <= Self::play_right()
        &&& Self::play_left() <= self.x + self.vx <= Self::play_right()
        &&& Self::play_top() <= self.y
        &&& Self::play_top() <= self.y + self.vy
    }

    pub fn new(x: i64, y: i64, vx: i64, vy: i64) -> (r: Ball)
        requires
            vx > i64::MIN,
            vy > i64::MIN,
        ensures
            r == (Ball { x, y, vx, vy }),
            r.wf(),
    {
        Ball { x, y, vx, vy }
    }

    /// The box the projectile covers on screen, in whole pixels: its corner
    /// rounded towards zero, as a cast of the position would, and `ball_size`
    /// pixels wide and high. Coordinates beyond `i32` are held to its range.
    pub fn rect(&self, ball_size: u32) -> (r: Rect)
        ensures
            r.x as int == to_pixel(self.x as int),
            r.y as int == to_pixel(self.y as int),
            r.w == ball_size,
            r.h == ball_size,
    {
        Rect::new(pixel_of(self.x), pixel_of(self.y), ball_size, ball_size)
    }

    /// Moves the projectile by its velocity.
    pub fn shift(&mut self)
        ensures
            *final(self) == old(self).moved_by(old(self).vx as int, old(self).vy as int),
    {
        self.x = sat_add(self.x, self.vx);
        self.y = sat_add(self.y, self.vy);
    }

    /// Advances the projectile by one tick among `bricks`. Returns -1, leaving
    /// everything as it was, when the projectile has left the arena through
    /// the bottom; otherwise 0, after reflecting off a side, the ceiling or the
    /// first brick met (which takes `damage`), and moving.
    pub fn collision(&mut self, bricks: &mut Vec<Brick>, damage: u32, ball_size: u32) -> (r: i32)
        requires
            old(self).wf(),
        ensures
            r == (if old(self).expired() {
                -1i32
            } else {
                0i32
            }),
            *final(self) == old(self).after_tick(ball_size, old(bricks)@),
            final(bricks)@ == old(self).bricks_after_tick(ball_size, old(bricks)@, damage),
            final(self).wf(),
    {
        if self.y >= WINDOW_HEIGHT as i64 * SUBPIXELS {
            return -1;
        }
        let nx = sat_add(self.x, self.vx);
        let ny = sat_add(self.y, self.vy);
        let right = (WINDOW_WIDTH as i64 - ball_size as i64 - SIDE_MARGIN) * SUBPIXELS;
        if nx <= SIDE_MARGIN * SUBPIXELS || nx >= right {
            self.vx = -self.vx;
            self.x = nx;
            self.y = ny;
            return 0;
        }
        if ny <= CEILING * SUBPIXELS {
            self.vy = -self.vy;
            self.x = nx;
            self.y = ny;
            return 0;
        }
        let size = ball_size as i64 * SUBPIXELS;
        let ghost b0 = *self;
        let mut i: usize = 0;
        while i < bricks.len()
            invariant
                *self == b0,
                b0 == *old(self),
                bricks@ == old(bricks)@,
                b0.wf(),
                !b0.expired(),
                !b0.hits_side(ball_size),
                !b0.hits_ceiling(),
                nx == b0.next_x(),
                ny == b0.next_y(),
                size == ball_size * SUBPIXELS,
                i <= bricks.len(),
                forall|j: int| 0 <= j < i ==> !b0.probe_meets(ball_size, #[trigger] bricks@[j].rect),
            decreases bricks.len() - i,
        {
            let rect = bricks[i].rect;
            if boxes_overlap(
                nx,
                ny,
                size,
                size,
                rect.x as i64 * SUBPIXELS,
                rect.y as i64 * SUBPIXELS,
                rect.w as i64 * SUBPIXELS,
                rect.h as i64 * SUBPIXELS,
            ) {
                proof {
                    lemma_first_hit(b0, ball_size, old(bricks)@, i as int);
                }
                let hit = bricks[i];
                let life = if (hit.life as i64) - (damage as i64) < i32::MIN as i64 {
                    i32::MIN
                } else {
                    ((hit.life as i64) - (damage as i64)) as i32
                };
                bricks.set(i, Brick { life, ..hit });
                let cx = (rect.x as i64 + rect.w as i64 / 2) * SUBPIXELS;
                let half = (ball_size as i64 / 2) * SUBPIXELS;
                let towards = (self.vx > 0 && cx > self.x) || (self.vx < 0 && cx < self.x);
                if towards && rect.y as i64 * SUBPIXELS - half <= self.y && self.y <= (rect.y as i64
                    + rect.h as i64) * SUBPIXELS + half {
                    self.vx = -self.vx;
                } else {
                    self.vy = -self.vy;
                }
                self.shift();
                return 0;
            }
            i = i + 1;
        }
        proof {
            lemma_first_hit(b0, ball_size, old(bricks)@, i as int);
        }
        self.x = nx;
        self.y = ny;
        0
    }
}

/// A tick changes neither the size of the horizontal velocity nor that of the
/// vertical one: reflections off sides, ceiling and bricks only flip signs.
pub proof fn lemma_speed_kept(b: Ball, size: u32, bricks: Seq<Brick>)
    requires
        b.wf(),
    ensures
        b.after_tick(size, bricks).vx == b.vx || b.after_tick(size, bricks).vx == -b.vx,
        b.after_tick(size, bricks).vy == b.vy || b.after_tick(size, bricks).vy == -b.vy,
        b.after_tick(size, bricks).wf(),
{
}

/// A projectile in play lies between the left and the right edge of the
/// window and below its top edge.
pub proof fn lemma_in_play_within_window(b: Ball)
    requires
        b.in_play(),
    ensures
        0 <= b.x <= WINDOW_WIDTH * SUBPIXELS,
        0 <= b.y,
{
}

/// A tick keeps a projectile in play, whatever the bricks and the projectile's
/// diameter, except when the projectile bounces off a side while the next
/// position after that would be above the ceiling, which the side bounce does
/// not check.
pub proof fn lemma_tick_keeps_in_play(b: Ball, size: u32, bricks: Seq<Brick>)
    requires
        b.in_play(),
        !(!b.expired() && b.hits_side(size) && b.next_y() + b.vy < Ball::play_top()),
    ensures
        b.after_tick(size, bricks).in_play(),
{
    let i = first_hit(b, size, bricks);
    if !b.expired() {
        assert(b.next_x() == b.x + b.vx);
        assert(b.next_y() == b.y + b.vy);
        if !b.hits_side(size) && !b.hits_ceiling() && i < bricks.len() {
            let r = bricks[i].rect;
            if b.turns_sideways(size, r) {
                assert(b.after_tick(size, bricks) == b.moved_by(-b.vx, b.vy as int));
            } else {
                assert(b.after_tick(size, bricks) == b.moved_by(b.vx as int, -b.vy));
            }
        }
    }
}

/// A projectile that reports expiry is left as it was, and so are the bricks:
/// advancing it again changes nothing.
pub proof fn lemma_expired_is_still(b: Ball, size: u32, bricks: Seq<Brick>, damage: u32)
    requires
        b.expired(),
    ensures
        b.after_tick(size, bricks) == b,
        b.bricks_after_tick(size, bricks, damage) == bricks,
        b.after_tick(size, bricks).expired(),
{
}

/// A tick only wears bricks down: every brick keeps its box and kind, and its
/// hit points do not grow. At most one brick changes: the first one met, which
/// loses `damage` hit points (held at `i32::MIN`).
pub proof fn lemma_tick_only_wears(b: Ball, size: u32, bricks: Seq<Brick>, damage: u32)
    ensures
        b.bricks_after_tick(size, bricks, damage).len() == bricks.len(),
        forall|i: int|
            0 <= i < bricks.len() ==> {
                let after = #[trigger] b.bricks_after_tick(size, bricks, damage)[i];
                &&& after.rect == bricks[i].rect
                &&& after.brick_type == bricks[i].brick_type
                &&& after.life <= bricks[i].life
            },
        forall|i: int|
            0 <= i < bricks.len() && #[trigger] b.bricks_after_tick(size, bricks, damage)[i]
                != bricks[i] ==> i == first_hit(b, size, bricks) && b.bricks_after_tick(
                size,
                bricks,
                damage,
            )[i].life == worn(bricks[i].life, damage),
{
    lemma_first_hit_bounds(b, size, bricks);
}

} // verus!
