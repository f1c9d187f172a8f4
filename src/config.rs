use vstd::prelude::*;

verus! {

/// Width of the window, in pixels.
pub const WINDOW_WIDTH: u32 = 600;

/// Height of the window, in pixels; a projectile at or below it has left the arena.
pub const WINDOW_HEIGHT: u32 = 700;

/// Side of a brick, in pixels.
pub const BRICK_SIZE: u32 = 30;

/// Distance between the top-left corners of two neighbouring grid cells, in pixels.
pub const CELL_STEP: u32 = 32;

/// Left edge of the brick grid, in pixels.
pub const GRID_LEFT: i32 = 109;

/// Top edge of the brick grid, in pixels.
pub const GRID_TOP: i32 = 151;

/// Number of columns of the brick grid.
pub const GRID_COLUMNS: u32 = 12;

/// Number of rows of the brick grid.
pub const GRID_ROWS: u32 = 12;

/// Width of the border bars on each side of the playfield, in pixels.
pub const SIDE_MARGIN: i64 = 105;

/// Vertical position of the ceiling bar, in pixels.
pub const CEILING: i64 = 80;

/// A brick whose bottom edge passes this line ends the game.
pub const LIMIT_LINE: i64 = 585;

/// Bricks whose corners lie at most this far from an exploding bomb are destroyed.
pub const SPLASH_RADIUS: i32 = 90;

/// Hit points of a freshly generated brick.
pub const BRICK_LIFE: i32 = 100;

/// Damage dealt by one hit, before any pickup.
pub const DEFAULT_DAMAGE: u32 = 5;

/// Diameter of a projectile in pixels, before any pickup.
pub const DEFAULT_BALL_SIZE: u32 = 10;

/// Projectiles launched per round, before any pickup.
pub const DEFAULT_MAX_BALLS: u32 = 10;

/// What one pickup adds to damage, projectile size or projectile count.
pub const PICKUP_BONUS: u32 = 3;

/// How long a pickup announcement stays on screen, in milliseconds.
pub const ANNOUNCEMENT_MS: u64 = 2000;

/// Milli-pixels per pixel: the unit of projectile positions and velocities.
pub const SUBPIXELS: i64 = 1000;

/// Largest speed along each axis, in milli-pixels per tick, for which the
/// arena is known to hold a projectile.
pub const MAX_SPEED: i64 = 20000;

/// Chance, in percent, that an unlocked grid cell holds a brick.
pub const BRICK_CHANCE: u32 = 40;

/// Chance, in percent, that a brick is one of the special kinds.
pub const SPECIAL_CHANCE: u32 = 15;

} // verus!
