use brick_breaker::angle::Angle;
use brick_breaker::brick::{Brick, BrickKind};
use brick_breaker::geometry::Rect;
use brick_breaker::wave::{layout_bricks, random_draws, CellDraw, Wave, GRID_CELLS};

#[test]
fn brick_rect_from_grid_position() {
    let b = Brick::new(2, 3, 100, BrickKind::Bomb);
    assert_eq!(b.rect, Rect::new(2 * 32 + 109, 3 * 32 + 151, 30, 30));
    assert_eq!(b.life, 100);
    assert_eq!(b.brick_type, BrickKind::Bomb);
}

#[test]
fn bricks_equal_by_box() {
    let a = Brick::new(2, 3, 100, BrickKind::Bomb);
    let b = Brick::new(2, 3, 7, BrickKind::Normal);
    let c = Brick::new(3, 3, 100, BrickKind::Bomb);
    assert!(a == b);
    assert!(a != c);
}

#[test]
fn euclidian_distance_rounds_down() {
    let a = Brick::new(0, 0, 1, BrickKind::Normal);
    assert_eq!(a.euclidian_distance(&Brick::new(0, 0, 1, BrickKind::Normal)), 0);
    assert_eq!(a.euclidian_distance(&Brick::new(1, 0, 1, BrickKind::Normal)), 32);
    assert_eq!(a.euclidian_distance(&Brick::new(1, 1, 1, BrickKind::Normal)), 45);
    assert_eq!(a.euclidian_distance(&Brick::new(2, 2, 1, BrickKind::Normal)), 90);
    assert_eq!(a.euclidian_distance(&Brick::new(3, 0, 1, BrickKind::Normal)), 96);
    assert_eq!(Brick::new(3, 0, 1, BrickKind::Normal).euclidian_distance(&a), 96);
}

#[test]
fn euclidian_distance_caps_at_i32_max() {
    let a = Brick { rect: Rect::new(i32::MIN, i32::MIN, 30, 30), life: 1, brick_type: BrickKind::Normal };
    let b = Brick { rect: Rect::new(i32::MAX, i32::MAX, 30, 30), life: 1, brick_type: BrickKind::Normal };
    assert_eq!(a.euclidian_distance(&b), i32::MAX);
}

#[test]
fn rect_intersection_excludes_shared_edges() {
    let r = Rect::new(0, 0, 5, 5);
    assert!(r.has_intersection(r));
    assert!(r.has_intersection(Rect::new(2, 2, 5, 5)));
    assert!(!r.has_intersection(Rect::new(5, 0, 5, 5)));
    assert!(!r.has_intersection(Rect::new(1, 1, 0, 3)));
    assert!(r.encloses(5, 5));
    assert!(!r.encloses(6, 5));
}

#[test]
fn angle_stays_within_bounds() {
    let mut a = Angle::new();
    assert_eq!(a.steps(), 100);
    for _ in 0..500 {
        a.incr();
    }
    assert_eq!(a.steps(), 190);
    for _ in 0..500 {
        a.decr();
    }
    assert_eq!(a.steps(), 10);
    a.incr();
    assert_eq!(a.steps(), 11);
}

fn uniform_draws(presence: u32, special: u32, kind: u32) -> Vec<CellDraw> {
    vec![CellDraw { presence, special, kind }; GRID_CELLS]
}

#[test]
fn layout_unlocks_rows_up_to_wave_number() {
    let bricks = layout_bricks(1, &uniform_draws(0, 99, 0));
    assert_eq!(bricks.len(), 24);
    for (k, b) in bricks.iter().enumerate() {
        let col = (k % 12) as i32;
        let row = (k / 12) as i32;
        assert_eq!(b.rect, Rect::new(col * 32 + 109, row * 32 + 151, 30, 30));
        assert_eq!(b.life, 100);
        assert_eq!(b.brick_type, BrickKind::Normal);
    }
    assert_eq!(layout_bricks(11, &uniform_draws(0, 99, 0)).len(), 144);
    assert_eq!(layout_bricks(40, &uniform_draws(0, 99, 0)).len(), 144);
}

#[test]
fn layout_follows_presence_and_special_draws() {
    assert_eq!(layout_bricks(5, &uniform_draws(40, 0, 0)).len(), 0);
    assert_eq!(layout_bricks(5, &uniform_draws(39, 99, 0)).len(), 72);
    let kinds = [BrickKind::Bomb, BrickKind::MoreBalls, BrickKind::MoreDamage, BrickKind::BiggerBalls];
    for k in 0..4u32 {
        let bricks = layout_bricks(0, &uniform_draws(0, 14, k));
        assert_eq!(bricks.len(), 12);
        assert!(bricks.iter().all(|b| b.brick_type == kinds[k as usize]));
    }
    let normal = layout_bricks(0, &uniform_draws(0, 15, 0));
    assert!(normal.iter().all(|b| b.brick_type == BrickKind::Normal));
}

#[test]
fn random_draws_stay_in_range() {
    for _ in 0..20 {
        let draws = random_draws();
        assert_eq!(draws.len(), GRID_CELLS);
        assert!(draws.iter().all(|d| d.presence < 100 && d.special < 100 && d.kind < 4));
    }
}

#[test]
fn random_wave_has_fresh_bricks_in_unlocked_rows() {
    let mut total = 0;
    for _ in 0..20 {
        let mut w = Wave::new(2);
        w.load_bricks();
        assert_eq!(w.wave_number, 2);
        assert!(w.bricks.len() <= 36);
        for b in &w.bricks {
            assert_eq!(b.life, 100);
            assert!(b.rect.y <= 2 * 32 + 151);
        }
        total += w.bricks.len();
    }
    // A presence chance of 40% leaves 720 * 0.4 = 288 bricks on average.
    assert!(total > 150 && total < 450);
}
