use brick_breaker::ball::Ball;
use brick_breaker::brick::{Brick, BrickKind};
use brick_breaker::geometry::Rect;

#[test]
fn expired_ball_reports_minus_one_and_stays() {
    let mut b = Ball::new(300_000, 700_000, 1000, 2000);
    let mut bricks = vec![Brick::new(0, 0, 100, BrickKind::Normal)];
    assert_eq!(b.collision(&mut bricks, 5, 10), -1);
    assert_eq!(b, Ball::new(300_000, 700_000, 1000, 2000));
    assert_eq!(b.collision(&mut bricks, 5, 10), -1);
    assert_eq!(b, Ball::new(300_000, 700_000, 1000, 2000));
    assert_eq!(bricks[0].life, 100);
}

#[test]
fn left_wall_reflects_horizontal_velocity_next_tick() {
    let mut b = Ball::new(110_000, 400_000, -8000, -3000);
    let mut bricks = Vec::new();
    assert_eq!(b.collision(&mut bricks, 5, 10), 0);
    assert_eq!(b, Ball::new(102_000, 397_000, 8000, -3000));
    assert_eq!(b.collision(&mut bricks, 5, 10), 0);
    assert_eq!(b, Ball::new(110_000, 394_000, 8000, -3000));
}

#[test]
fn right_wall_depends_on_ball_size() {
    // 600 - 10 - 105 = 485 pixels is the right bound for a ball of size 10.
    let mut b = Ball::new(480_000, 400_000, 5000, 0);
    let mut bricks = Vec::new();
    assert_eq!(b.collision(&mut bricks, 5, 10), 0);
    assert_eq!(b, Ball::new(485_000, 400_000, -5000, 0));
    let mut c = Ball::new(470_000, 400_000, 5000, 0);
    assert_eq!(c.collision(&mut bricks, 5, 10), 0);
    assert_eq!(c, Ball::new(475_000, 400_000, 5000, 0));
    let mut d = Ball::new(470_000, 400_000, 5000, 0);
    assert_eq!(d.collision(&mut bricks, 5, 20), 0);
    assert_eq!(d.vx, -5000);
}

#[test]
fn ceiling_reflects_vertical_velocity() {
    let mut b = Ball::new(300_000, 85_000, 1000, -7000);
    let mut bricks = Vec::new();
    assert_eq!(b.collision(&mut bricks, 5, 10), 0);
    assert_eq!(b, Ball::new(301_000, 78_000, 1000, 7000));
}

#[test]
fn brick_from_below_reflects_vertically_and_takes_damage() {
    // Brick at column 5, row 0: x 269..299, y 151..181.
    let mut bricks = vec![Brick::new(5, 0, 100, BrickKind::Normal), Brick::new(5, 1, 100, BrickKind::Normal)];
    let mut b = Ball::new(280_000, 185_000, 0, -7000);
    assert_eq!(b.collision(&mut bricks, 5, 10), 0);
    assert_eq!(bricks[0].life, 95);
    assert_eq!(bricks[1].life, 100);
    assert_eq!(b, Ball::new(280_000, 192_000, 0, 7000));
}

#[test]
fn only_first_brick_met_is_hit() {
    // Two overlapping boxes: the first in storage order takes the hit.
    let mut bricks = vec![
        Brick { rect: Rect::new(269, 151, 30, 30), life: 10, brick_type: BrickKind::Normal },
        Brick { rect: Rect::new(269, 151, 30, 30), life: 10, brick_type: BrickKind::Normal },
    ];
    let mut b = Ball::new(280_000, 185_000, 0, -7000);
    b.collision(&mut bricks, 3, 10);
    assert_eq!(bricks[0].life, 7);
    assert_eq!(bricks[1].life, 10);
}

#[test]
fn brick_from_the_side_reflects_horizontally() {
    // Ball left of the brick centre, moving right, vertically level with it.
    let mut bricks = vec![Brick::new(5, 3, 100, BrickKind::Normal)];
    // Brick box: x 269..299, y 247..277.
    let mut b = Ball::new(262_000, 255_000, 8000, 1000);
    assert_eq!(b.collision(&mut bricks, 5, 10), 0);
    assert_eq!(bricks[0].life, 95);
    assert_eq!(b, Ball::new(254_000, 256_000, -8000, 1000));
}

#[test]
fn speeds_survive_many_bounces() {
    let mut bricks = vec![Brick::new(3, 2, 1000, BrickKind::Normal), Brick::new(8, 4, 1000, BrickKind::Normal)];
    let mut b = Ball::new(295_000, 690_000, 5123, -6111);
    for _ in 0..2000 {
        if b.collision(&mut bricks, 1, 10) == -1 {
            break;
        }
        assert_eq!(b.vx.abs(), 5123);
        assert_eq!(b.vy.abs(), 6111);
        assert!(b.x >= 0 && b.x <= 600_000);
        assert!(b.y >= 0);
    }
}

#[test]
fn hit_points_saturate_at_minimum() {
    let mut bricks = vec![Brick { rect: Rect::new(269, 151, 30, 30), life: i32::MIN + 2, brick_type: BrickKind::Normal }];
    let mut b = Ball::new(280_000, 185_000, 0, -7000);
    b.collision(&mut bricks, 5, 10);
    assert_eq!(bricks[0].life, i32::MIN);
}

#[test]
fn shift_moves_by_velocity() {
    let mut b = Ball::new(1000, 2000, 30, -40);
    b.shift();
    assert_eq!(b, Ball::new(1030, 1960, 30, -40));
    let mut c = Ball::new(i64::MAX - 5, 0, 10, 0);
    c.shift();
    assert_eq!(c.x, i64::MAX);
}

#[test]
fn ball_rect_rounds_towards_zero() {
    assert_eq!(Ball::new(1999, -1999, 0, 0).rect(10), Rect::new(1, -1, 10, 10));
    assert_eq!(Ball::new(295_000, 690_500, 0, 0).rect(13), Rect::new(295, 690, 13, 13));
    assert_eq!(Ball::new(i64::MAX, i64::MIN, 0, 0).rect(10), Rect::new(i32::MAX, i32::MIN, 10, 10));
}
