use brick_breaker::ball::Ball;
use brick_breaker::brick::{Brick, BrickKind};
use brick_breaker::game::{ui_regions, Announcement, Game, Pickup, RoundEnd, UiAction};
use brick_breaker::wave::{layout_bricks, CellDraw, GRID_CELLS};

fn full_draws() -> Vec<CellDraw> {
    vec![CellDraw { presence: 0, special: 99, kind: 0 }; GRID_CELLS]
}

fn running_game(bricks: Vec<Brick>) -> Game {
    let mut g = Game::new();
    g.act(UiAction::Start);
    g.wave.bricks = bricks;
    g.game_is_loaded = true;
    g
}

#[test]
fn new_game_defaults() {
    let g = Game::new();
    assert!(!g.started && !g.paused && !g.round && !g.game_is_loaded && !g.game_is_lost);
    assert_eq!(g.wave.wave_number, 1);
    assert_eq!((g.max_balls, g.ball_damage, g.ball_size), (10, 5, 10));
    assert_eq!(g.angle.steps(), 100);
    assert!(g.bonus.is_none());
}

#[test]
fn single_brick_cleared_advances_wave() {
    // One normal brick with one hit point straight above the spawn point,
    // launched straight up.
    let mut g = running_game(vec![Brick::new(5, 0, 1, BrickKind::Normal)]);
    g.launch();
    let draws = full_draws();
    let mut end = RoundEnd::Continuing;
    let mut broken = 0;
    for frame in 0..3000u64 {
        let ev = g.update_balls_state(frame, 0, -7746, frame * 16, &draws);
        broken += ev.bricks_broken;
        if ev.round_end != RoundEnd::Continuing {
            end = ev.round_end;
            break;
        }
    }
    assert_eq!(broken, 1);
    assert_eq!(end, RoundEnd::NextWave);
    assert_eq!(g.wave.wave_number, 2);
    assert!(!g.round);
    assert_eq!(g.balls_in_round, 0);
    assert!(g.balls.is_empty());
    assert_eq!(g.wave.bricks, layout_bricks(2, &draws));
    assert_eq!(g.wave.bricks.len(), 36);
    assert!(!g.game_is_lost);
}

#[test]
fn more_balls_pickup_raises_cap_and_announces() {
    let mut g = running_game(vec![
        Brick::new(0, 0, 0, BrickKind::MoreBalls),
        Brick::new(4, 0, 100, BrickKind::Normal),
    ]);
    assert_eq!(g.max_balls, 10);
    let ev = g.remove_dead_bricks(5_000);
    assert_eq!(g.max_balls, 13);
    assert_eq!(g.bonus, Some(Announcement { pickup: Pickup::MoreBullets, expires_at_ms: 7_000 }));
    assert_eq!(g.bonus.unwrap().pickup.message(), "More bullets!");
    assert!(ev.more_balls && !ev.more_damage && !ev.bigger_balls && !ev.bomb_exploded);
    assert_eq!(ev.bricks_broken, 1);
    assert_eq!(g.wave.bricks, vec![Brick::new(4, 0, 100, BrickKind::Normal)]);
}

#[test]
fn announcement_expires_after_two_seconds() {
    let mut g = running_game(vec![
        Brick::new(0, 0, 0, BrickKind::MoreDamage),
        Brick::new(4, 0, 100, BrickKind::Normal),
    ]);
    let draws = full_draws();
    g.update_balls_state(0, 0, -7000, 1_000, &draws);
    assert_eq!(g.ball_damage, 8);
    assert_eq!(g.bonus, Some(Announcement { pickup: Pickup::MoreDamage, expires_at_ms: 3_000 }));
    g.update_balls_state(1, 0, -7000, 3_000, &draws);
    assert!(g.bonus.is_some());
    g.update_balls_state(2, 0, -7000, 3_001, &draws);
    assert!(g.bonus.is_none());
}

#[test]
fn pickups_add_three_each() {
    let mut g = running_game(vec![
        Brick::new(0, 0, -3, BrickKind::BiggerBalls),
        Brick::new(4, 0, 0, BrickKind::BiggerBalls),
        Brick::new(8, 0, 0, BrickKind::MoreDamage),
    ]);
    let ev = g.remove_dead_bricks(0);
    assert_eq!(g.ball_size, 16);
    assert_eq!(g.ball_damage, 8);
    assert_eq!(g.max_balls, 10);
    assert_eq!(ev.bricks_broken, 3);
    assert!(g.wave.bricks.is_empty());
    // The last dead special brick in storage order is announced.
    assert_eq!(g.bonus.unwrap().pickup, Pickup::MoreDamage);
    assert_eq!(g.bonus.unwrap().pickup.message(), "More damage!");
}

#[test]
fn bomb_cascade_clears_splash_radius_only() {
    // Offsets from the bomb at (5, 5): one cell right is 32 px away; two cells
    // diagonally is about 90.5 px, just outside the 90 px radius; three cells
    // right or down is 96 px away.
    let mut g = running_game(vec![
        Brick::new(5, 5, 0, BrickKind::Bomb),
        Brick::new(6, 5, 100, BrickKind::Normal),
        Brick::new(7, 7, 100, BrickKind::MoreBalls),
        Brick::new(8, 5, 100, BrickKind::Normal),
        Brick::new(5, 8, 100, BrickKind::Normal),
        Brick::new(0, 0, 42, BrickKind::Normal),
    ]);
    let ev = g.remove_dead_bricks(0);
    assert!(ev.bomb_exploded);
    assert_eq!(ev.bricks_broken, 2);
    assert_eq!(
        g.wave.bricks,
        vec![
            Brick::new(7, 7, 100, BrickKind::MoreBalls),
            Brick::new(8, 5, 100, BrickKind::Normal),
            Brick::new(5, 8, 100, BrickKind::Normal),
            Brick::new(0, 0, 42, BrickKind::Normal),
        ]
    );
    assert_eq!(g.wave.bricks[0].life, 100);
    assert_eq!(g.wave.bricks[3].life, 42);
    assert_eq!(g.max_balls, 10);
    assert_eq!(g.bonus.unwrap().pickup.message(), "Boom!");
}

#[test]
fn bomb_splash_includes_exact_radius() {
    // A brick whose corner lies exactly 90 px away is destroyed; 91 px is not.
    let at = |x: i32, y: i32, life: i32, kind: BrickKind| Brick {
        rect: brick_breaker::geometry::Rect::new(x, y, 30, 30),
        life,
        brick_type: kind,
    };
    let mut g = running_game(vec![
        at(200, 200, 0, BrickKind::Bomb),
        at(290, 200, 100, BrickKind::Normal),
        at(200, 291, 100, BrickKind::Normal),
        at(254, 272, 100, BrickKind::Normal),
    ]);
    let ev = g.remove_dead_bricks(0);
    assert_eq!(ev.bricks_broken, 3);
    assert_eq!(g.wave.bricks, vec![at(200, 291, 100, BrickKind::Normal)]);
}

#[test]
fn surviving_bricks_move_down_without_loss() {
    let mut g = running_game(vec![Brick::new(0, 0, 100, BrickKind::Normal), Brick::new(3, 11, 100, BrickKind::Normal)]);
    g.round = true;
    g.balls_in_round = 10;
    let draws = full_draws();
    let ev = g.update_balls_state(1, 0, -7000, 0, &draws);
    assert_eq!(ev.round_end, RoundEnd::BricksDown);
    assert!(!g.game_is_lost);
    assert!(g.started);
    assert!(!g.round);
    assert_eq!(g.balls_in_round, 0);
    assert_eq!(g.wave.bricks[0].rect.y, 181);
    assert_eq!(g.wave.bricks[1].rect.y, 11 * 32 + 151 + 30);
    assert_eq!(g.wave.wave_number, 1);
    // A new round can be launched.
    g.launch();
    let ev = g.update_balls_state(2, 0, -7000, 0, &draws);
    assert!(ev.spawned);
    assert_eq!(g.balls.len(), 1);
    assert_eq!(g.balls_in_round, 1);
}

#[test]
fn brick_crossing_limit_line_loses_game() {
    // Row 12 of the grid: y 535, bottom 565; one step down gives bottom 595.
    let mut g = running_game(vec![Brick::new(0, 0, 100, BrickKind::Normal), Brick::new(2, 12, 100, BrickKind::Normal)]);
    g.round = true;
    g.max_balls = 16;
    g.balls_in_round = 16;
    g.ball_damage = 11;
    g.ball_size = 13;
    g.wave.wave_number = 7;
    let draws = full_draws();
    let ev = g.update_balls_state(1, 0, -7000, 0, &draws);
    assert_eq!(ev.round_end, RoundEnd::Lost);
    assert!(g.game_is_lost);
    assert!(!g.started);
    assert_eq!((g.max_balls, g.ball_damage, g.ball_size), (10, 5, 10));
    assert_eq!(g.best_score, Some(7));
    assert_eq!(g.wave.wave_number, 1);
}

#[test]
fn bottom_exactly_on_limit_line_is_not_lost() {
    let mut g = running_game(vec![Brick { rect: brick_breaker::geometry::Rect::new(200, 525, 30, 30), life: 5, brick_type: BrickKind::Normal }]);
    assert!(!g.is_lost());
    g.get_bricks_down();
    assert_eq!(g.wave.bricks[0].rect.y, 555);
    assert!(!g.is_lost());
    g.get_bricks_down();
    assert!(g.is_lost());
    assert!(g.game_is_lost);
}

#[test]
fn spawning_follows_even_ticks_and_cap() {
    let mut g = running_game(vec![Brick::new(0, 0, 100, BrickKind::Normal)]);
    g.launch();
    let draws = full_draws();
    // The first projectile of a round comes at once, even on an odd tick.
    assert!(g.update_balls_state(1, 0, -7000, 0, &draws).spawned);
    assert_eq!(g.balls[0], Ball::new(295_000, 690_000 - 7000, 0, -7000));
    assert!(!g.update_balls_state(3, 0, -7000, 0, &draws).spawned);
    assert!(g.update_balls_state(4, 0, -7000, 0, &draws).spawned);
    let mut spawned = 2;
    for frame in 5..40u64 {
        if g.update_balls_state(frame, 0, -7000, 0, &draws).spawned {
            spawned += 1;
        }
    }
    assert_eq!(spawned, 10);
    assert_eq!(g.balls_in_round, 10);
}

#[test]
fn unloaded_wave_is_generated_on_first_tick() {
    let mut g = Game::new();
    let draws = full_draws();
    g.update_balls_state(0, 0, -7000, 0, &draws);
    assert!(!g.game_is_loaded);
    g.act(UiAction::Start);
    g.update_balls_state(0, 0, -7000, 0, &draws);
    assert!(g.game_is_loaded);
    assert_eq!(g.wave.bricks, layout_bricks(1, &draws));
}

#[test]
fn paused_game_does_not_move() {
    let mut g = running_game(vec![Brick::new(0, 0, 100, BrickKind::Normal)]);
    g.launch();
    let draws = full_draws();
    g.update_balls_state(0, 0, -7000, 0, &draws);
    g.act(UiAction::Pause);
    assert!(g.paused);
    let before = g.balls.clone();
    let ev = g.update_balls_state(2, 0, -7000, 0, &draws);
    assert!(!ev.spawned);
    assert_eq!(g.balls, before);
    g.act(UiAction::Resume);
    assert!(!g.paused);
}

#[test]
fn transitions_ignore_events_out_of_mode() {
    let mut g = Game::new();
    g.act(UiAction::Pause);
    assert!(!g.paused);
    g.act(UiAction::Resume);
    g.act(UiAction::GiveUp);
    g.act(UiAction::Retry);
    assert!(!g.started && !g.paused && !g.game_is_lost);
    g.act(UiAction::Start);
    assert!(g.started);
    g.act(UiAction::Pause);
    g.act(UiAction::GiveUp);
    assert!(!g.started && !g.paused);
    g.game_is_lost = true;
    g.act(UiAction::Start);
    assert!(!g.started);
    g.act(UiAction::Retry);
    assert!(g.started && !g.game_is_lost && !g.game_is_loaded);
}

#[test]
fn clicks_on_regions_drive_transitions() {
    let regions = ui_regions();
    let mut g = Game::new();
    g.act_drawn(&regions, 10, 10);
    assert!(!g.started);
    g.act_drawn(&regions, 300, 250);
    assert!(g.started && !g.paused);
    g.act_drawn(&regions, 500, 30);
    assert!(g.paused);
    g.act_drawn(&regions, 300, 250);
    assert!(g.started && !g.paused);
    g.act_drawn(&regions, 420, 15);
    g.act_drawn(&regions, 400, 450);
    assert!(!g.started && !g.paused);
}

#[test]
fn wave_number_saturates() {
    let mut g = running_game(Vec::new());
    g.wave.wave_number = u32::MAX;
    g.round = true;
    g.balls_in_round = 10;
    let ev = g.update_balls_state(1, 0, -7000, 0, &full_draws());
    assert_eq!(ev.round_end, RoundEnd::NextWave);
    assert_eq!(g.wave.wave_number, u32::MAX);
    assert_eq!(g.wave.bricks.len(), 144);
}

#[test]
fn pickups_saturate() {
    let mut g = running_game(vec![
        Brick::new(0, 0, 0, BrickKind::MoreBalls),
        Brick::new(4, 0, 0, BrickKind::MoreBalls),
    ]);
    g.max_balls = u32::MAX - 4;
    g.remove_dead_bricks(u64::MAX - 100);
    assert_eq!(g.max_balls, u32::MAX);
    assert_eq!(g.bonus.unwrap().expires_at_ms, u64::MAX);
}

#[test]
fn bricks_shift_saturates() {
    let mut g = running_game(vec![Brick {
        rect: brick_breaker::geometry::Rect::new(0, i32::MAX - 10, 30, 30),
        life: 1,
        brick_type: BrickKind::Normal,
    }]);
    g.get_bricks_down();
    assert_eq!(g.wave.bricks[0].rect.y, i32::MAX);
}

#[test]
fn dead_bricks_leave_in_the_tick_that_kills_them() {
    // Brick straight above the spawn point with fewer hit points than one hit.
    let mut g = running_game(vec![Brick::new(5, 0, 3, BrickKind::Normal), Brick::new(0, 11, 100, BrickKind::Normal)]);
    g.launch();
    let draws = full_draws();
    for frame in 0..200u64 {
        let ev = g.update_balls_state(frame, 0, -7746, 0, &draws);
        assert!(g.wave.bricks.iter().all(|b| b.life > 0));
        if ev.bricks_broken > 0 {
            assert_eq!(g.wave.bricks, vec![Brick::new(0, 11, 100, BrickKind::Normal)]);
            return;
        }
    }
    panic!("the brick was never broken");
}

#[test]
fn load_bricks_from_draws_marks_loaded() {
    let mut g = Game::new();
    g.wave.wave_number = 3;
    let draws = full_draws();
    g.load_bricks_from(&draws);
    assert!(g.game_is_loaded);
    assert_eq!(g.wave.bricks.len(), 48);
    assert_eq!(g.wave.bricks, layout_bricks(3, &draws));
}

#[test]
fn random_load_marks_loaded() {
    let mut g = Game::new();
    g.load_bricks();
    assert!(g.game_is_loaded);
    assert_eq!(g.wave.wave_number, 1);
    assert!(g.wave.bricks.len() <= 24);
    assert!(g.wave.bricks.iter().all(|b| b.life == 100 && b.rect.y <= 183));
}

#[test]
fn launch_only_starts_a_round() {
    let mut g = Game::new();
    g.launch();
    assert!(g.round);
    g.launch();
    assert!(g.round);
    assert!(g.balls.is_empty());
}
