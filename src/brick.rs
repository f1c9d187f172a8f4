use vstd::prelude::*;
use crate::config::{BRICK_SIZE, CELL_STEP, GRID_LEFT, GRID_TOP};
use crate::geometry::Rect;

verus! {

/// What a brick does when it is destroyed.
#[derive(Clone, Copy, Debug, PartialEq, Eq, Structural)]
pub enum BrickKind {
    Normal,
    /// Destroys the bricks around it.
    Bomb,
    /// Raises the number of projectiles launched per round.
    MoreBalls,
    /// Raises the damage of each hit.
    MoreDamage,
    /// Makes projectiles larger.
    BiggerBalls,
}

/// A destructible cell of the grid.
#[derive(Clone, Copy, Debug)]
pub struct Brick {
    pub rect: Rect,
    pub life: i32,
    pub brick_type: BrickKind,
}

/// Two bricks are the same brick when they occupy the same box.
impl PartialEq for Brick {
    fn eq(&self, other: &Brick) -> (r: bool)
        ensures
            r == (self.rect == other.rect),
    {
        self.rect == other.rect
    }
}

impl vstd::std_specs::cmp::PartialEqSpecImpl for Brick {
    open spec fn obeys_eq_spec() -> bool {
        true
    }

    open spec fn eq_spec(&self, other: &Brick) -> bool {
        self.rect == other.rect
    }
}

/// Box of the grid cell at column `i` and row `j`.
pub open spec fn cell_rect(i: int, j: int) -> Rect {
    Rect {
        x: (i * CELL_STEP + GRID_LEFT) as i32,
        y: (j * CELL_STEP + GRID_TOP) as i32,
        w: BRICK_SIZE,
        h: BRICK_SIZE,
    }
}

/// The grid cell at column `i` and row `j` has a box in `i32` coordinates.
pub open spec fn cell_fits(i: int, j: int) -> bool {
    &&& i32::MIN <= i * CELL_STEP + GRID_LEFT <= i32::MAX
    &&& i32::MIN <= j * CELL_STEP + GRID_TOP <= i32::MAX
}

/// Square of the distance between the top-left corners of two boxes.
pub open spec fn dist_sq(a: Rect, b: Rect) -> int {
    (b.y - a.y) * (b.y - a.y) + (b.x - a.x) * (b.x - a.x)
}

/// `r` is the square root of `s`, rounded down.
pub open spec fn is_floor_sqrt(r: int, s: int) -> bool {
    0 <= r && r * r <= s < (r + 1) * (r + 1)
}

/// The square root of `s`, rounded down.
fn floor_sqrt(s: u128) -> (r: u128)
    requires
        s < 0x4_0000_0000_0000_0000u128,
    ensures
        is_floor_sqrt(r as int, s as int),
{
    let mut lo: u128 = 0;
    let mut hi: u128 = 0x2_0000_0000u128;
    assert(s < hi * hi) by (nonlinear_arith)
        requires
            hi == 0x2_0000_0000u128,
            s < 0x4_0000_0000_0000_0000u128,
    ;
    while hi - lo > 1
        invariant
            lo < hi <= 0x2_0000_0000u128,
            lo * lo <= s,
            s < hi * hi,
        decreases hi - lo,
    {
        let mid = lo + (hi - lo) / 2;
        assert(mid * mid <= 0x4_0000_0000_0000_0000u128) by (nonlinear_arith)
            requires
                mid <= 0x2_0000_0000u128,
        ;
        if mid * mid <= s {
            lo = mid;
        } else {
            hi = mid;
        }
    }
    lo
}

impl Brick {
    /// A brick in the grid cell at column `i` and row `j`.
    pub fn new(i: i32, j: i32, life: i32, brick_type: BrickKind) -> (r: Brick)
        requires
            cell_fits(i as int, j as int),
        ensures
            r.rect == cell_rect(i as int, j as int),
            r.life == life,
            r.brick_type == brick_type,
    {
        let x = i as i64 * CELL_STEP as i64 + GRID_LEFT as i64;
        let y = j as i64 * CELL_STEP as i64 + GRID_TOP as i64;
        Brick { rect: Rect::new(x as i32, y as i32, BRICK_SIZE, BRICK_SIZE), life, brick_type }
    }

    /// Distance in pixels between the top-left corners of two bricks, rounded
    /// down, and capped at `i32::MAX`.
    pub fn euclidian_distance(&self, brick: &Brick) -> (r: i32)
        ensures
            r < i32::MAX ==> is_floor_sqrt(r as int, dist_sq(self.rect, brick.rect)),
            r == i32::MAX ==> dist_sq(self.rect, brick.rect) >= i32::MAX * i32::MAX,
    {
        let dy = brick.rect.y as i64 - self.rect.y as i64;
        let dx = brick.rect.x as i64 - self.rect.x as i64;
        let ay: u128 = if dy < 0 {
            (-dy) as u128
        } else {
            dy as u128
        };
        let ax: u128 = if dx < 0 {
            (-dx) as u128
        } else {
            dx as u128
        };
        assert(ay * ay <= 0x1_0000_0000_0000_0000u128 && ax * ax <= 0x1_0000_0000_0000_0000u128)
            by (nonlinear_arith)
            requires
                ay <= 0x1_0000_0000u128,
                ax <= 0x1_0000_0000u128,
        ;
        assert(ay * ay == dy * dy) by (nonlinear_arith)
            requires
                ay == dy || ay == -dy,
        ;
        assert(ax * ax == dx * dx) by (nonlinear_arith)
            requires
                ax == dx || ax == -dx,
        ;
        let sum = ay * ay + ax * ax;
        assert(sum == dist_sq(self.rect, brick.rect)) by (nonlinear_arith)
            requires
                sum == ay * ay + ax * ax,
                ay * ay == dy * dy,
                ax * ax == dx * dx,
                dy == brick.rect.y - self.rect.y,
                dx == brick.rect.x - self.rect.x,
        ;
        let root = floor_sqrt(sum);
        if root >= i32::MAX as u128 {
            assert(root * root >= i32::MAX * i32::MAX) by (nonlinear_arith)
                requires
                    root >= i32::MAX,
            ;
            i32::MAX
        } else {
            root as i32
        }
    }
}

} // verus!
