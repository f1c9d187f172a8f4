use vstd::prelude::*;
use crate::angle::Angle;
use crate::ball::{lemma_speed_kept, lemma_tick_keeps_in_play, lemma_tick_only_wears, Ball};
use crate::brick::{dist_sq, Brick, BrickKind};
use crate::config::{
    ANNOUNCEMENT_MS, BRICK_LIFE, BRICK_SIZE, MAX_SPEED, DEFAULT_BALL_SIZE, DEFAULT_DAMAGE, DEFAULT_MAX_BALLS, LIMIT_LINE,
    PICKUP_BONUS, SPLASH_RADIUS, SUBPIXELS, WINDOW_HEIGHT, WINDOW_WIDTH,
};
use crate::geometry::Rect;
use crate::wave::{layout, lemma_layout_fresh, CellDraw, Wave, GRID_CELLS};

verus! {

/// The pickup that an announcement reports.
#[derive(Clone, Copy, Debug, PartialEq, Eq, Structural)]
pub enum Pickup {
    Boom,
    MoreBullets,
    MoreDamage,
    BiggerBalls,
}

impl Pickup {
    /// The text shown on screen.
    pub fn message(&self) -> (r: &'static str)
        ensures
            *self == Pickup::Boom ==> r@ == "Boom!"@,
            *self == Pickup::MoreBullets ==> r@ == "More bullets!"@,
            *self == Pickup::MoreDamage ==> r@ == "More damage!"@,
            *self == Pickup::BiggerBalls ==> r@ == "Bigger balls!"@,
    {
        match self {
            Pickup::Boom => "Boom!",
            Pickup::MoreBullets => "More bullets!",
            Pickup::MoreDamage => "More damage!",
            Pickup::BiggerBalls => "Bigger balls!",
        }
    }
}

/// A pickup announcement, shown until the wall-clock time `expires_at_ms`.
#[derive(Clone, Copy, Debug, PartialEq, Eq, Structural)]
pub struct Announcement {
    pub pickup: Pickup,
    pub expires_at_ms: u64,
}

/// The semantic events that the input layer hands to the game.
#[derive(Clone, Copy, Debug, PartialEq, Eq, Structural)]
pub enum UiAction {
    Start,
    Pause,
    Resume,
    GiveUp,
    Retry,
}

/// A clickable region of the screen and what a click on it asks for.
#[derive(Clone, Copy, Debug, PartialEq, Eq, Structural)]
pub struct UiRegion {
    pub rect: Rect,
    pub action: Option<UiAction>,
}

/// How a round ended, if it did during a tick.
#[derive(Clone, Copy, Debug, PartialEq, Eq, Structural)]
pub enum RoundEnd {
    /// The round goes on, or no round was running.
    Continuing,
    /// Every brick was destroyed: the next wave was generated.
    NextWave,
    /// Bricks survived and moved one step down.
    BricksDown,
    /// Bricks survived, moved down, and one crossed the limit line.
    Lost,
}

/// What happened during one tick, for the sound layer.
#[derive(Clone, Copy, Debug, PartialEq, Eq, Structural)]
pub struct TickEvents {
    pub spawned: bool,
    pub bricks_broken: usize,
    pub bomb_exploded: bool,
    pub more_balls: bool,
    pub more_damage: bool,
    pub bigger_balls: bool,
    pub round_end: RoundEnd,
}

/// The state of a game as plain values.
pub struct GameModel {
    pub started: bool,
    pub paused: bool,
    pub angle: u32,
    pub balls: Seq<Ball>,
    pub round: bool,
    pub balls_in_round: u32,
    pub loaded: bool,
    pub lost: bool,
    pub wave_number: u32,
    pub bricks: Seq<Brick>,
    pub max_balls: u32,
    pub ball_damage: u32,
    pub ball_size: u32,
    pub bonus: Option<Announcement>,
    pub best_score: Option<u32>,
}

/// The whole game: flags, aim, projectiles, the current wave and the tunables
/// that pickups raise.
pub struct Game {
    pub started: bool,
    pub paused: bool,
    pub angle: Angle,
    pub balls: Vec<Ball>,
    pub round: bool,
    pub balls_in_round: u32,
    pub game_is_loaded: bool,
    pub game_is_lost: bool,
    pub wave: Wave,
    pub max_balls: u32,
    pub ball_damage: u32,
    pub ball_size: u32,
    pub bonus: Option<Announcement>,
    pub best_score: Option<u32>,
}

impl View for Game {
    type V = GameModel;

    open spec fn view(&self) -> GameModel {
        GameModel {
            started: self.started,
            paused: self.paused,
            angle: self.angle.view_steps(),
            balls: self.balls@,
            round: self.round,
            balls_in_round: self.balls_in_round,
            loaded: self.game_is_loaded,
            lost: self.game_is_lost,
            wave_number: self.wave.wave_number,
            bricks: self.wave.bricks@,
            max_balls: self.max_balls,
            ball_damage: self.ball_damage,
            ball_size: self.ball_size,
            bonus: self.bonus,
            best_score: self.best_score,
        }
    }
}

/// `a`, held to the range of `u32`.
pub open spec fn cap_u32(a: int) -> u32 {
    if a > u32::MAX {
        u32::MAX
    } else {
        a as u32
    }
}

/// `a`, held to the range of `u64`.
pub open spec fn cap_u64(a: int) -> u64 {
    if a > u64::MAX {
        u64::MAX
    } else {
        a as u64
    }
}

/// `a`, held to the range of `i32`.
pub open spec fn cap_i32(a: int) -> i32 {
    if a > i32::MAX {
        i32::MAX
    } else {
        a as i32
    }
}

/// The state after the semantic event `a`; an event that does not apply to
/// the current mode changes nothing.
pub open spec fn acted(m: GameModel, a: UiAction) -> GameModel {
    match a {
        UiAction::Start => if !m.started && !m.lost {
            GameModel { started: true, balls: Seq::empty(), loaded: false, ..m }
        } else {
            m
        },
        UiAction::Pause => if m.started && !m.paused && !m.lost {
            GameModel { paused: true, ..m }
        } else {
            m
        },
        UiAction::Resume => if m.started && m.paused {
            GameModel { paused: false, ..m }
        } else {
            m
        },
        UiAction::GiveUp => if m.started && m.paused {
            GameModel { started: false, paused: false, ..m }
        } else {
            m
        },
        UiAction::Retry => if !m.started && !m.paused && m.lost {
            GameModel { lost: false, started: true, loaded: false, ..m }
        } else {
            m
        },
    }
}

/// The state after a click at `(x, y)`: the action of each region that holds
/// the point applies, in the order of the regions.
pub open spec fn clicked(m: GameModel, regions: Seq<UiRegion>, x: i32, y: i32) -> GameModel
    decreases regions.len(),
{
    if regions.len() == 0 {
        m
    } else {
        let before = clicked(m, regions.drop_last(), x, y);
        let r = regions.last();
        if r.rect.x <= x <= r.rect.x + r.rect.w && r.rect.y <= y <= r.rect.y + r.rect.h
            && r.action.is_some() {
            acted(before, r.action.unwrap())
        } else {
            before
        }
    }
}

/// A brick moved one brick height down.
pub open spec fn lowered(b: Brick) -> Brick {
    Brick { rect: Rect { y: cap_i32(b.rect.y + BRICK_SIZE), ..b.rect }, ..b }
}

/// Some brick's bottom edge lies below the limit line.
pub open spec fn over_limit(bricks: Seq<Brick>) -> bool {
    exists|i: int| 0 <= i < bricks.len() && (#[trigger] bricks[i]).rect.bottom() > LIMIT_LINE
}

/// The state on losing: the tunables go back to their defaults, the wave
/// reached is kept as the score and the next attempt starts at wave 1.
pub open spec fn lost_model(m: GameModel) -> GameModel {
    GameModel {
        started: false,
        lost: true,
        ball_size: DEFAULT_BALL_SIZE,
        max_balls: DEFAULT_MAX_BALLS,
        ball_damage: DEFAULT_DAMAGE,
        best_score: Some(m.wave_number),
        wave_number: 1,
        ..m
    }
}

/// The round has just ended: no projectile is left and a round was running.
pub open spec fn round_over(m: GameModel) -> bool {
    m.balls.len() == 0 && m.round
}

/// The end-of-round step: a cleared wave is followed by the next one, laid
/// out from `draws`; otherwise the bricks move down and the game may be lost.
pub open spec fn round_closed(m: GameModel, draws: Seq<CellDraw>) -> GameModel {
    if round_over(m) {
        let m1 = GameModel { round: false, balls_in_round: 0, ..m };
        if m.bricks.len() == 0 {
            let n = cap_u32(m.wave_number + 1);
            GameModel { wave_number: n, bricks: layout(n, draws), ..m1 }
        } else {
            let m2 = GameModel { bricks: m.bricks.map_values(|b: Brick| lowered(b)), ..m1 };
            if over_limit(m2.bricks) {
                lost_model(m2)
            } else {
                GameModel { lost: false, ..m2 }
            }
        }
    } else {
        m
    }
}

/// The clickable regions of the menus and of the in-game screen.
pub fn ui_regions() -> (r: Vec<UiRegion>)
    ensures
        r@ == seq![
            UiRegion { rect: Rect { x: 200, y: 200, w: 200, h: 100 }, action: Some(UiAction::Start) },
            UiRegion { rect: Rect { x: 420, y: 15, w: 150, h: 40 }, action: Some(UiAction::Pause) },
            UiRegion { rect: Rect { x: 200, y: 200, w: 200, h: 100 }, action: Some(UiAction::Resume) },
            UiRegion { rect: Rect { x: 200, y: 350, w: 200, h: 100 }, action: Some(UiAction::GiveUp) },
            UiRegion { rect: Rect { x: 200, y: 475, w: 200, h: 100 }, action: Some(UiAction::Retry) },
        ],
{
    let mut r: Vec<UiRegion> = Vec::new();
    r.push(UiRegion { rect: Rect::new(200, 200, 200, 100), action: Some(UiAction::Start) });
    r.push(UiRegion { rect: Rect::new(420, 15, 150, 40), action: Some(UiAction::Pause) });
    r.push(UiRegion { rect: Rect::new(200, 200, 200, 100), action: Some(UiAction::Resume) });
    r.push(UiRegion { rect: Rect::new(200, 350, 200, 100), action: Some(UiAction::GiveUp) });
    r.push(UiRegion { rect: Rect::new(200, 475, 200, 100), action: Some(UiAction::Retry) });
    r
}

impl Game {
    /// A game in the menu, at wave 1, with default tunables and no bricks yet.
    pub fn new() -> (r: Game)
        ensures
            r@ == (GameModel {
                started: false,
                paused: false,
                angle: 100,
                balls: Seq::empty(),
                round: false,
                balls_in_round: 0,
                loaded: false,
                lost: false,
                wave_number: 1,
                bricks: Seq::empty(),
                max_balls: DEFAULT_MAX_BALLS,
                ball_damage: DEFAULT_DAMAGE,
                ball_size: DEFAULT_BALL_SIZE,
                bonus: None,
                best_score: None,
            }),
    {
        let r = Game {
            started: false,
            paused: false,
            angle: Angle::new(),
            balls: Vec::new(),
            round: false,
            balls_in_round: 0,
            game_is_loaded: false,
            game_is_lost: false,
            wave: Wave::new(1),
            max_balls: DEFAULT_MAX_BALLS,
            ball_damage: DEFAULT_DAMAGE,
            ball_size: DEFAULT_BALL_SIZE,
            bonus: None,
            best_score: None,
        };
        assert(r@.bricks =~= Seq::empty());
        assert(r@.balls =~= Seq::empty());
        r
    }

    /// Lays out the current wave from `draws` and marks the bricks loaded.
    pub fn load_bricks_from(&mut self, draws: &Vec<CellDraw>)
        requires
            draws@.len() == GRID_CELLS,
        ensures
            final(self)@ == (GameModel {
                bricks: layout(old(self)@.wave_number, draws@),
                loaded: true,
                ..old(self)@
            }),
    {
        self.wave.load_bricks_from(draws);
        self.game_is_loaded = true;
    }

    /// Lays out the current wave at random and marks the bricks loaded.
    pub fn load_bricks(&mut self)
        ensures
            exists|d: Seq<CellDraw>|
                d.len() == GRID_CELLS && (forall|k: int| 0 <= k < d.len() ==> (#[trigger] d[k]).in_range())
                    && final(self)@ == (GameModel {
                    bricks: layout(old(self)@.wave_number, d),
                    loaded: true,
                    ..old(self)@
                }),
    {
        self.wave.load_bricks();
        self.game_is_loaded = true;
    }

    /// Applies a semantic event: start, pause, resume, give up or retry.
    pub fn act(&mut self, action: UiAction)
        ensures
            final(self)@ == acted(old(self)@, action),
    {
        match action {
            UiAction::Start => {
                if !self.started && !self.game_is_lost {
                    self.started = true;
                    self.balls = Vec::new();
                    self.game_is_loaded = false;
                    assert(self@.balls =~= Seq::empty());
                }
            },
            UiAction::Pause => {
                if self.started && !self.paused && !self.game_is_lost {
                    self.paused = true;
                }
            },
            UiAction::Resume => {
                if self.started && self.paused {
                    self.paused = false;
                }
            },
            UiAction::GiveUp => {
                if self.started && self.paused {
                    self.started = false;
                    self.paused = false;
                }
            },
            UiAction::Retry => {
                if !self.started && !self.paused && self.game_is_lost {
                    self.game_is_lost = false;
                    self.started = true;
                    self.game_is_loaded = false;
                }
            },
        }
    }

    /// Handles a click at `(x, y)` against the clickable `regions`.
    pub fn act_drawn(&mut self, regions: &Vec<UiRegion>, x: i32, y: i32)
        ensures
            final(self)@ == clicked(old(self)@, regions@, x, y),
    {
        let mut i: usize = 0;
        while i < regions.len()
            invariant
                i <= regions@.len(),
                self@ == clicked(old(self)@, regions@.subrange(0, i as int), x, y),
            decreases regions.len() - i,
        {
            let region = regions[i];
            assert(regions@.subrange(0, i + 1).drop_last() =~= regions@.subrange(0, i as int));
            if region.rect.encloses(x, y) {
                match region.action {
                    Some(a) => self.act(a),
                    None => {},
                }
            }
            i = i + 1;
        }
        assert(regions@.subrange(0, regions@.len() as int) =~= regions@);
    }

    /// Releases the projectiles of a round, unless a round is running.
    pub fn launch(&mut self)
        ensures
            final(self)@ == (GameModel { round: true, ..old(self)@ }),
    {
        if !self.round {
            self.round = true;
        }
    }

    /// Moves every brick one brick height down.
    pub fn get_bricks_down(&mut self)
        ensures
            final(self)@ == (GameModel {
                bricks: old(self)@.bricks.map_values(|b: Brick| lowered(b)),
                ..old(self)@
            }),
    {
        let n = self.wave.bricks.len();
        let mut i: usize = 0;
        while i < n
            invariant
                n == old(self)@.bricks.len(),
                i <= n,
                self@ == (GameModel { bricks: self@.bricks, ..old(self)@ }),
                self@.bricks.len() == n,
                forall|j: int| 0 <= j < i ==> self@.bricks[j] == lowered(#[trigger] old(self)@.bricks[j]),
                forall|j: int| i <= j < n ==> self@.bricks[j] == #[trigger] old(self)@.bricks[j],
            decreases n - i,
        {
            let b = self.wave.bricks[i];
            let y = if b.rect.y <= i32::MAX - BRICK_SIZE as i32 {
                b.rect.y + BRICK_SIZE as i32
            } else {
                i32::MAX
            };
            self.wave.bricks.set(i, Brick { rect: Rect { y, ..b.rect }, ..b });
            i = i + 1;
        }
        assert(self@.bricks =~= old(self)@.bricks.map_values(|b: Brick| lowered(b)));
    }

    /// Ends the game when a brick's bottom edge lies below the limit line:
    /// the tunables go back to their defaults, the wave reached becomes the
    /// score and the wave number returns to 1. Returns whether it did.
    pub fn is_lost(&mut self) -> (r: bool)
        ensures
            r == over_limit(old(self)@.bricks),
            final(self)@ == if r {
                lost_model(old(self)@)
            } else {
                old(self)@
            },
    {
        let mut i: usize = 0;
        while i < self.wave.bricks.len()
            invariant
                self@ == old(self)@,
                i <= self@.bricks.len(),
                forall|j: int| 0 <= j < i ==> (#[trigger] self@.bricks[j]).rect.bottom() <= LIMIT_LINE,
            decreases self@.bricks.len() - i,
        {
            let b = self.wave.bricks[i];
            if b.rect.y as i64 + b.rect.h as i64 > LIMIT_LINE {
                self.started = false;
                self.game_is_lost = true;
                self.ball_size = DEFAULT_BALL_SIZE;
                self.max_balls = DEFAULT_MAX_BALLS;
                self.ball_damage = DEFAULT_DAMAGE;
                self.best_score = Some(self.wave.wave_number);
                self.wave.wave_number = 1;
                return true;
            }
            i = i + 1;
        }
        false
    }

    /// The end-of-round step of a tick; `draws` lay out the next wave if the
    /// current one was cleared.
    pub fn finish_round(&mut self, draws: &Vec<CellDraw>) -> (r: RoundEnd)
        requires
            draws@.len() == GRID_CELLS,
        ensures
            final(self)@ == round_closed(old(self)@, draws@),
            (r == RoundEnd::NextWave) == (round_over(old(self)@) && old(self)@.bricks.len() == 0),
            (r == RoundEnd::BricksDown || r == RoundEnd::Lost) == (round_over(old(self)@)
                && old(self)@.bricks.len() > 0),
            (r == RoundEnd::Lost) == (round_over(old(self)@) && old(self)@.bricks.len() > 0
                && over_limit(old(self)@.bricks.map_values(|b: Brick| lowered(b)))),
    {
        if self.balls.len() == 0 && self.round {
            self.round = false;
            self.balls_in_round = 0;
            if self.wave.bricks.len() == 0 {
                self.wave.wave_number = self.wave.wave_number.saturating_add(1);
                self.wave.load_bricks_from(draws);
                RoundEnd::NextWave
            } else {
                self.get_bricks_down();
                let lost = self.is_lost();
                self.game_is_lost = lost;
                if lost {
                    RoundEnd::Lost
                } else {
                    RoundEnd::BricksDown
                }
            }
        } else {
            RoundEnd::Continuing
        }
    }
}

/// Where a projectile of diameter `size` starts: centred horizontally on the
/// bottom spawn line, with velocity `(vx, vy)`.
pub open spec fn launched(size: u32, vx: i64, vy: i64) -> Ball {
    Ball {
        x: ((WINDOW_WIDTH - size) * (SUBPIXELS / 2)) as i64,
        y: ((WINDOW_HEIGHT - size) * SUBPIXELS) as i64,
        vx,
        vy,
    }
}

/// A projectile is due at tick `frame`: a round is running and either none
/// was launched yet, or fewer than the cap were and the tick is even.
pub open spec fn spawn_due(m: GameModel, frame: u64) -> bool {
    m.round && ((m.balls_in_round < m.max_balls && frame % 2 == 0) || m.balls_in_round == 0)
}

/// The spawning step of a tick.
pub open spec fn spawned(m: GameModel, frame: u64, vx: i64, vy: i64) -> GameModel {
    if spawn_due(m, frame) {
        GameModel {
            balls: m.balls.push(launched(m.ball_size, vx, vy)),
            balls_in_round: (m.balls_in_round + 1) as u32,
            ..m
        }
    } else {
        m
    }
}

/// Every projectile of `balls` advances one tick, in order, each among the
/// bricks as the previous ones left them. Returns the projectiles that did not
/// report expiry, in order, and the bricks at the end.
pub open spec fn advance_all(balls: Seq<Ball>, bricks: Seq<Brick>, damage: u32, size: u32) -> (
    Seq<Ball>,
    Seq<Brick>,
)
    decreases balls.len(),
{
    if balls.len() == 0 {
        (Seq::empty(), bricks)
    } else {
        let (kept, br) = advance_all(balls.drop_last(), bricks, damage, size);
        let b = balls.last();
        (
            if b.expired() {
                kept
            } else {
                kept.push(b.after_tick(size, br))
            },
            b.bricks_after_tick(size, br, damage),
        )
    }
}

/// The motion step of a tick.
pub open spec fn advanced(m: GameModel) -> GameModel {
    let (balls, bricks) = advance_all(m.balls, m.bricks, m.ball_damage, m.ball_size);
    GameModel { balls, bricks, ..m }
}

/// The brick has no hit points left.
pub open spec fn is_dead(b: Brick) -> bool {
    b.life <= 0
}

/// The Euclidean distance between the top-left corners of two boxes is at
/// most the splash radius.
pub open spec fn in_splash(a: Rect, b: Rect) -> bool {
    dist_sq(a, b) <= SPLASH_RADIUS * SPLASH_RADIUS
}

/// `d` is a bomb with no hit points left.
pub open spec fn is_spent_bomb(d: Brick) -> bool {
    is_dead(d) && d.brick_type == BrickKind::Bomb
}

/// `b` lies within the splash of another brick of `bricks` that is a spent bomb.
pub open spec fn blown(b: Brick, bricks: Seq<Brick>) -> bool {
    exists|j: int|
        0 <= j < bricks.len() && is_spent_bomb(#[trigger] bricks[j]) && bricks[j].rect != b.rect
            && in_splash(b.rect, bricks[j].rect)
}

/// `b` does not survive the removal pass over `bricks`.
pub open spec fn removed(b: Brick, bricks: Seq<Brick>) -> bool {
    is_dead(b) || blown(b, bricks)
}

/// The bricks that survive the removal pass, in their order.
pub open spec fn survivors(bricks: Seq<Brick>) -> Seq<Brick> {
    bricks.filter(kept_by(bricks))
}

/// Whether a brick stays in the removal pass over `bricks`.
pub open spec fn kept_by(bricks: Seq<Brick>) -> spec_fn(Brick) -> bool {
    |b: Brick| !removed(b, bricks)
}

/// Number of bricks of kind `kind` with no hit points left.
pub open spec fn dead_count(bricks: Seq<Brick>, kind: BrickKind) -> nat
    decreases bricks.len(),
{
    if bricks.len() == 0 {
        0
    } else {
        dead_count(bricks.drop_last(), kind) + if is_dead(bricks.last()) && bricks.last().brick_type
            == kind {
            1nat
        } else {
            0nat
        }
    }
}

/// The announcement that destroying a brick of kind `kind` makes.
pub open spec fn pickup_of(kind: BrickKind) -> Option<Pickup> {
    match kind {
        BrickKind::Normal => None,
        BrickKind::Bomb => Some(Pickup::Boom),
        BrickKind::MoreBalls => Some(Pickup::MoreBullets),
        BrickKind::MoreDamage => Some(Pickup::MoreDamage),
        BrickKind::BiggerBalls => Some(Pickup::BiggerBalls),
    }
}

/// The announcement of the last special brick of `bricks` with no hit points
/// left, if any.
pub open spec fn last_pickup(bricks: Seq<Brick>) -> Option<Pickup>
    decreases bricks.len(),
{
    if bricks.len() == 0 {
        None
    } else if is_dead(bricks.last()) && pickup_of(bricks.last().brick_type).is_some() {
        pickup_of(bricks.last().brick_type)
    } else {
        last_pickup(bricks.drop_last())
    }
}

/// The removal step of a tick at wall-clock time `now_ms`: dead bricks and
/// the bricks around spent bombs go; each dead special brick applies its
/// pickup, and the last one is announced for `ANNOUNCEMENT_MS`.
pub open spec fn cleared(m: GameModel, now_ms: u64) -> GameModel {
    GameModel {
        bricks: survivors(m.bricks),
        max_balls: cap_u32(m.max_balls + PICKUP_BONUS * dead_count(m.bricks, BrickKind::MoreBalls)),
        ball_damage: cap_u32(
            m.ball_damage + PICKUP_BONUS * dead_count(m.bricks, BrickKind::MoreDamage),
        ),
        ball_size: cap_u32(m.ball_size + PICKUP_BONUS * dead_count(m.bricks, BrickKind::BiggerBalls)),
        bonus: match last_pickup(m.bricks) {
            Some(p) => Some(Announcement { pickup: p, expires_at_ms: cap_u64(now_ms + ANNOUNCEMENT_MS) }),
            None => m.bonus,
        },
        ..m
    }
}

/// The last step of a tick: an announcement whose deadline has passed goes.
pub open spec fn bonus_checked(m: GameModel, now_ms: u64) -> GameModel {
    match m.bonus {
        Some(a) => if now_ms > a.expires_at_ms {
            GameModel { bonus: None, ..m }
        } else {
            m
        },
        None => m,
    }
}

/// The state with the wave laid out from `draws` if it was not loaded yet.
pub open spec fn loaded_with(m: GameModel, draws: Seq<CellDraw>) -> GameModel {
    if m.loaded {
        m
    } else {
        GameModel { bricks: layout(m.wave_number, draws), loaded: true, ..m }
    }
}

/// The state of a running tick just before the end-of-round step: loaded,
/// spawned, moved and cleared of dead bricks.
pub open spec fn before_round_close(
    m: GameModel,
    frame: u64,
    vx: i64,
    vy: i64,
    now_ms: u64,
    draws: Seq<CellDraw>,
) -> GameModel {
    cleared(advanced(spawned(loaded_with(m, draws), frame, vx, vy)), now_ms)
}

/// One tick of a running game: load the wave if needed, spawn, move, remove
/// bricks, close the round, expire the announcement. A game that is not
/// running does not change.
pub open spec fn ticked(
    m: GameModel,
    frame: u64,
    vx: i64,
    vy: i64,
    now_ms: u64,
    draws: Seq<CellDraw>,
) -> GameModel {
    if m.started && !m.paused {
        bonus_checked(round_closed(before_round_close(m, frame, vx, vy, now_ms, draws), draws), now_ms)
    } else {
        m
    }
}

/// Every projectile can be reflected.
pub open spec fn balls_wf(balls: Seq<Ball>) -> bool {
    forall|i: int| 0 <= i < balls.len() ==> (#[trigger] balls[i]).wf()
}

/// How a tick ends the round of the state `m` reached after its removal step.
pub open spec fn round_end_of(m: GameModel) -> RoundEnd {
    if round_over(m) {
        if m.bricks.len() == 0 {
            RoundEnd::NextWave
        } else if over_limit(m.bricks.map_values(|b: Brick| lowered(b))) {
            RoundEnd::Lost
        } else {
            RoundEnd::BricksDown
        }
    } else {
        RoundEnd::Continuing
    }
}

/// The events of the removal step over `bricks`.
pub open spec fn removal_events(bricks: Seq<Brick>) -> TickEvents {
    TickEvents {
        spawned: false,
        bricks_broken: (bricks.len() - survivors(bricks).len()) as usize,
        bomb_exploded: dead_count(bricks, BrickKind::Bomb) > 0,
        more_balls: dead_count(bricks, BrickKind::MoreBalls) > 0,
        more_damage: dead_count(bricks, BrickKind::MoreDamage) > 0,
        bigger_balls: dead_count(bricks, BrickKind::BiggerBalls) > 0,
        round_end: RoundEnd::Continuing,
    }
}

/// The events of one tick, as `ticked` runs it.
pub open spec fn tick_events(
    m: GameModel,
    frame: u64,
    vx: i64,
    vy: i64,
    now_ms: u64,
    draws: Seq<CellDraw>,
) -> TickEvents {
    if m.started && !m.paused {
        let m1 = loaded_with(m, draws);
        let m3 = advanced(spawned(m1, frame, vx, vy));
        TickEvents {
            spawned: spawn_due(m1, frame),
            round_end: round_end_of(cleared(m3, now_ms)),
            ..removal_events(m3.bricks)
        }
    } else {
        TickEvents {
            spawned: false,
            bricks_broken: 0,
            bomb_exploded: false,
            more_balls: false,
            more_damage: false,
            bigger_balls: false,
            round_end: RoundEnd::Continuing,
        }
    }
}

/// Whether the top-left corners of two boxes lie within the splash radius
/// of each other.
fn splash_reaches(a: Rect, b: Rect) -> (r: bool)
    ensures
        r == in_splash(a, b),
{
    let dy = b.y as i128 - a.y as i128;
    let dx = b.x as i128 - a.x as i128;
    assert(0 <= dy * dy <= 0x1_0000_0000_0000_0000i128 && 0 <= dx * dx <= 0x1_0000_0000_0000_0000i128)
        by (nonlinear_arith)
        requires
            -0x1_0000_0000i128 <= dy <= 0x1_0000_0000i128,
            -0x1_0000_0000i128 <= dx <= 0x1_0000_0000i128,
    ;
    let sy = dy * dy;
    let sx = dx * dx;
    assert(sy + sx == dist_sq(a, b));
    let radius = SPLASH_RADIUS as i128;
    assert(radius == 90);
    sy + sx <= radius * radius
}

/// Whether `b` lies within the splash of a spent bomb of `bricks`.
fn blown_in(bricks: &Vec<Brick>, b: Brick) -> (r: bool)
    ensures
        r == blown(b, bricks@),
{
    let mut j: usize = 0;
    while j < bricks.len()
        invariant
            j <= bricks@.len(),
            forall|k: int|
                0 <= k < j ==> !(is_spent_bomb(#[trigger] bricks@[k]) && bricks@[k].rect != b.rect
                    && in_splash(b.rect, bricks@[k].rect)),
        decreases bricks@.len() - j,
    {
        let d = bricks[j];
        if d.life <= 0 && d.brick_type == BrickKind::Bomb && d.rect != b.rect && splash_reaches(
            b.rect,
            d.rect,
        ) {
            return true;
        }
        j = j + 1;
    }
    false
}

impl Game {
    /// The spawning step of a tick: launches a projectile with velocity
    /// `(vx, vy)` when one is due. Returns whether it did.
    pub fn spawn_ball(&mut self, frame: u64, vx: i64, vy: i64) -> (r: bool)
        ensures
            final(self)@ == spawned(old(self)@, frame, vx, vy),
            r == spawn_due(old(self)@, frame),
    {
        if self.round && ((self.balls_in_round < self.max_balls && frame % 2 == 0)
            || self.balls_in_round == 0) {
            let size = self.ball_size as i64;
            let x = (WINDOW_WIDTH as i64 - size) * (SUBPIXELS / 2);
            let y = (WINDOW_HEIGHT as i64 - size) * SUBPIXELS;
            self.balls.push(Ball { x, y, vx, vy });
            self.balls_in_round = self.balls_in_round + 1;
            true
        } else {
            false
        }
    }

    /// The motion step of a tick: every projectile advances once, in order,
    /// and those that report expiry leave the list in the same pass.
    pub fn advance_balls(&mut self)
        requires
            balls_wf(old(self)@.balls),
        ensures
            final(self)@ == advanced(old(self)@),
            balls_wf(final(self)@.balls),
    {
        let n = self.balls.len();
        let mut kept: Vec<Ball> = Vec::new();
        let mut i: usize = 0;
        while i < n
            invariant
                n == old(self)@.balls.len(),
                i <= n,
                self@ == (GameModel { bricks: self@.bricks, ..old(self)@ }),
                (kept@, self@.bricks) == advance_all(
                    old(self)@.balls.subrange(0, i as int),
                    old(self)@.bricks,
                    self.ball_damage,
                    self.ball_size,
                ),
                balls_wf(kept@),
                balls_wf(old(self)@.balls),
            decreases n - i,
        {
            let mut b = self.balls[i];
            assert(old(self)@.balls.subrange(0, i + 1).drop_last() =~= old(self)@.balls.subrange(
                0,
                i as int,
            ));
            let st = b.collision(&mut self.wave.bricks, self.ball_damage, self.ball_size);
            if st == 0 {
                kept.push(b);
            }
            i = i + 1;
        }
        assert(old(self)@.balls.subrange(0, n as int) =~= old(self)@.balls);
        self.balls = kept;
    }

    /// The removal step of a tick at wall-clock time `now_ms`: removes the
    /// bricks with no hit points left and those within the splash of a spent
    /// bomb, and applies and announces the pickups of the dead bricks.
    pub fn remove_dead_bricks(&mut self, now_ms: u64) -> (r: TickEvents)
        ensures
            final(self)@ == cleared(old(self)@, now_ms),
            r == removal_events(old(self)@.bricks),
    {
        let ghost m = self@;
        let n = self.wave.bricks.len();
        let mut kept: Vec<Brick> = Vec::new();
        let mut broken: usize = 0;
        let mut bombs = false;
        let mut more_balls = false;
        let mut more_damage = false;
        let mut bigger_balls = false;
        let expires_at_ms = now_ms.saturating_add(ANNOUNCEMENT_MS);
        let mut j: usize = 0;
        while j < n
            invariant
                n == m.bricks.len(),
                j <= n,
                self@ == (GameModel {
                    max_balls: self@.max_balls,
                    ball_damage: self@.ball_damage,
                    ball_size: self@.ball_size,
                    bonus: self@.bonus,
                    ..m
                }),
                expires_at_ms == cap_u64(now_ms + ANNOUNCEMENT_MS),
                self.max_balls == cap_u32(
                    m.max_balls + PICKUP_BONUS * dead_count(
                        m.bricks.subrange(0, j as int),
                        BrickKind::MoreBalls,
                    ),
                ),
                self.ball_damage == cap_u32(
                    m.ball_damage + PICKUP_BONUS * dead_count(
                        m.bricks.subrange(0, j as int),
                        BrickKind::MoreDamage,
                    ),
                ),
                self.ball_size == cap_u32(
                    m.ball_size + PICKUP_BONUS * dead_count(
                        m.bricks.subrange(0, j as int),
                        BrickKind::BiggerBalls,
                    ),
                ),
                self.bonus == match last_pickup(m.bricks.subrange(0, j as int)) {
                    Some(p) => Some(Announcement { pickup: p, expires_at_ms }),
                    None => m.bonus,
                },
                kept@ == m.bricks.subrange(0, j as int).filter(kept_by(m.bricks)),
                broken == j - kept@.len(),
                kept@.len() <= j,
                bombs == (dead_count(m.bricks.subrange(0, j as int), BrickKind::Bomb) > 0),
                more_balls == (dead_count(m.bricks.subrange(0, j as int), BrickKind::MoreBalls) > 0),
                more_damage == (dead_count(m.bricks.subrange(0, j as int), BrickKind::MoreDamage)
                    > 0),
                bigger_balls == (dead_count(m.bricks.subrange(0, j as int), BrickKind::BiggerBalls)
                    > 0),
            decreases n - j,
        {
            let b = self.wave.bricks[j];
            let ghost prefix = m.bricks.subrange(0, j + 1);
            assert(prefix.drop_last() =~= m.bricks.subrange(0, j as int));
            assert(prefix.last() == b);
            proof {
                reveal(Seq::filter);
            }
            let dead = b.life <= 0;
            if dead {
                match b.brick_type {
                    BrickKind::Normal => {},
                    BrickKind::Bomb => {
                        bombs = true;
                        self.bonus = Some(Announcement { pickup: Pickup::Boom, expires_at_ms });
                    },
                    BrickKind::MoreBalls => {
                        more_balls = true;
                        self.max_balls = self.max_balls.saturating_add(PICKUP_BONUS);
                        self.bonus = Some(Announcement { pickup: Pickup::MoreBullets, expires_at_ms });
                    },
                    BrickKind::MoreDamage => {
                        more_damage = true;
                        self.ball_damage = self.ball_damage.saturating_add(PICKUP_BONUS);
                        self.bonus = Some(Announcement { pickup: Pickup::MoreDamage, expires_at_ms });
                    },
                    BrickKind::BiggerBalls => {
                        bigger_balls = true;
                        self.ball_size = self.ball_size.saturating_add(PICKUP_BONUS);
                        self.bonus = Some(Announcement { pickup: Pickup::BiggerBalls, expires_at_ms });
                    },
                }
            }
            if dead || blown_in(&self.wave.bricks, b) {
                broken = broken + 1;
            } else {
                kept.push(b);
            }
            j = j + 1;
        }
        assert(m.bricks.subrange(0, n as int) =~= m.bricks);
        self.wave.bricks = kept;
        TickEvents {
            spawned: false,
            bricks_broken: broken,
            bomb_exploded: bombs,
            more_balls,
            more_damage,
            bigger_balls,
            round_end: RoundEnd::Continuing,
        }
    }

    /// One tick of the simulation at tick number `frame` and wall-clock time
    /// `now_ms`. A projectile spawned now moves with velocity `(vx, vy)`;
    /// `draws` lay out the wave if it has to be generated. Does nothing unless
    /// the game is started and not paused.
    pub fn update_balls_state(
        &mut self,
        frame: u64,
        vx: i64,
        vy: i64,
        now_ms: u64,
        draws: &Vec<CellDraw>,
    ) -> (r: TickEvents)
        requires
            balls_wf(old(self)@.balls),
            vx > i64::MIN,
            vy > i64::MIN,
            draws@.len() == GRID_CELLS,
        ensures
            final(self)@ == ticked(old(self)@, frame, vx, vy, now_ms, draws@),
            r == tick_events(old(self)@, frame, vx, vy, now_ms, draws@),
            balls_wf(final(self)@.balls),
    {
        if !self.started || self.paused {
            return TickEvents {
                spawned: false,
                bricks_broken: 0,
                bomb_exploded: false,
                more_balls: false,
                more_damage: false,
                bigger_balls: false,
                round_end: RoundEnd::Continuing,
            };
        }
        if !self.game_is_loaded {
            self.load_bricks_from(draws);
        }
        let spawned = self.spawn_ball(frame, vx, vy);
        self.advance_balls();
        let events = self.remove_dead_bricks(now_ms);
        let round_end = self.finish_round(draws);
        match self.bonus {
            Some(a) => {
                if now_ms > a.expires_at_ms {
                    self.bonus = None;
                }
            },
            None => {},
        }
        TickEvents { spawned, round_end, ..events }
    }
}

/// A projectile launched with a speed of at most `MAX_SPEED` along each axis,
/// by projectiles of diameter at most 470 pixels, starts in play.
pub proof fn lemma_launch_in_play(size: u32, vx: i64, vy: i64)
    requires
        size <= 470,
        -MAX_SPEED <= vx <= MAX_SPEED,
        -MAX_SPEED <= vy <= MAX_SPEED,
    ensures
        launched(size, vx, vy).in_play(),
{
    assert(SUBPIXELS / 2 == 500);
}

/// The motion step keeps exactly the projectiles that did not report expiry,
/// and only wears bricks down: each keeps its box and kind and does not gain
/// hit points.
pub proof fn lemma_motion_step(balls: Seq<Ball>, bricks: Seq<Brick>, damage: u32, size: u32)
    ensures
        advance_all(balls, bricks, damage, size).0.len() == balls.filter(
            |b: Ball| !b.expired(),
        ).len(),
        advance_all(balls, bricks, damage, size).1.len() == bricks.len(),
        forall|i: int|
            0 <= i < bricks.len() ==> {
                let after = #[trigger] advance_all(balls, bricks, damage, size).1[i];
                &&& after.rect == bricks[i].rect
                &&& after.brick_type == bricks[i].brick_type
                &&& after.life <= bricks[i].life
            },
    decreases balls.len(),
{
    reveal(Seq::filter);
    if balls.len() > 0 {
        lemma_motion_step(balls.drop_last(), bricks, damage, size);
        let br = advance_all(balls.drop_last(), bricks, damage, size).1;
        lemma_tick_only_wears(balls.last(), size, br, damage);
        assert forall|i: int| 0 <= i < bricks.len() implies {
            let after = #[trigger] advance_all(balls, bricks, damage, size).1[i];
            &&& after.rect == bricks[i].rect
            &&& after.brick_type == bricks[i].brick_type
            &&& after.life <= bricks[i].life
        } by {
            assert(br[i].life <= bricks[i].life);
            assert(balls.last().bricks_after_tick(size, br, damage)[i].life <= br[i].life);
        }
    }
}

/// Bomb cascade: a brick within the splash of a spent bomb other than itself
/// is gone after the removal pass, whatever its hit points; a brick with hit
/// points left and within the splash of no spent bomb stays, unchanged.
pub proof fn lemma_bomb_cascade(bricks: Seq<Brick>, d: int, i: int)
    requires
        0 <= d < bricks.len(),
        0 <= i < bricks.len(),
    ensures
        is_spent_bomb(bricks[d]) && bricks[i].rect != bricks[d].rect && in_splash(
            bricks[i].rect,
            bricks[d].rect,
        ) ==> !survivors(bricks).contains(bricks[i]),
        !is_dead(bricks[i]) && !blown(bricks[i], bricks) ==> survivors(bricks).contains(bricks[i]),
{
    broadcast use Seq::lemma_filter_pred, Seq::lemma_filter_contains;

    if is_spent_bomb(bricks[d]) && bricks[i].rect != bricks[d].rect && in_splash(
        bricks[i].rect,
        bricks[d].rect,
    ) {
        assert(blown(bricks[i], bricks));
        if survivors(bricks).contains(bricks[i]) {
            let k = choose|k: int| 0 <= k < survivors(bricks).len() && survivors(bricks)[k] == bricks[i];
            assert(kept_by(bricks)(survivors(bricks)[k]));
        }
    }
    if !is_dead(bricks[i]) && !blown(bricks[i], bricks) {
        assert(kept_by(bricks)(bricks[i]));
    }
}

/// After a tick of a running game no brick is left without hit points: dead
/// bricks are removed before the next tick's collision scan.
pub proof fn lemma_no_dead_brick_after_tick(
    m: GameModel,
    frame: u64,
    vx: i64,
    vy: i64,
    now_ms: u64,
    draws: Seq<CellDraw>,
)
    requires
        m.started && !m.paused,
    ensures
        forall|i: int|
            0 <= i < ticked(m, frame, vx, vy, now_ms, draws).bricks.len() ==> !is_dead(
                #[trigger] ticked(m, frame, vx, vy, now_ms, draws).bricks[i],
            ),
{
    broadcast use Seq::lemma_filter_pred;

    let m1 = if m.loaded {
        m
    } else {
        GameModel { bricks: layout(m.wave_number, draws), loaded: true, ..m }
    };
    let m4 = cleared(advanced(spawned(m1, frame, vx, vy)), now_ms);
    assert forall|i: int| 0 <= i < m4.bricks.len() implies !is_dead(#[trigger] m4.bricks[i]) by {
        assert(kept_by(advanced(spawned(m1, frame, vx, vy)).bricks)(m4.bricks[i]));
    }
    let n = cap_u32(m4.wave_number + 1);
    lemma_layout_fresh(n, draws);
    let r = ticked(m, frame, vx, vy, now_ms, draws);
    assert forall|i: int| 0 <= i < r.bricks.len() implies !is_dead(#[trigger] r.bricks[i]) by {
        if round_over(m4) && m4.bricks.len() == 0 {
            assert(r.bricks[i].life == BRICK_LIFE);
        } else if round_over(m4) {
            assert(r.bricks[i] == lowered(m4.bricks[i]));
        }
    }
}

/// At the end of a round with bricks left, the game is lost exactly when a
/// brick moved down crosses the limit line; damage, projectile size and
/// projectile count go back to their defaults on that transition and on no
/// other step of the end of a round.
pub proof fn lemma_loss_at_round_end(m: GameModel, draws: Seq<CellDraw>)
    ensures
        round_over(m) && m.bricks.len() > 0 ==> round_closed(m, draws).lost == over_limit(
            m.bricks.map_values(|b: Brick| lowered(b)),
        ),
        round_end_of(m) == RoundEnd::Lost ==> {
            let r = round_closed(m, draws);
            &&& r.lost && !r.started
            &&& r.ball_damage == DEFAULT_DAMAGE
            &&& r.ball_size == DEFAULT_BALL_SIZE
            &&& r.max_balls == DEFAULT_MAX_BALLS
            &&& r.best_score == Some(m.wave_number)
            &&& r.wave_number == 1
        },
        round_end_of(m) != RoundEnd::Lost ==> {
            let r = round_closed(m, draws);
            &&& r.ball_damage == m.ball_damage
            &&& r.ball_size == m.ball_size
            &&& r.max_balls == m.max_balls
        },
{
}

/// At the end of a round the wave advances exactly when no brick is left, and
/// the bricks move down exactly when some are left; never both.
pub proof fn lemma_wave_or_descent(m: GameModel, draws: Seq<CellDraw>)
    requires
        round_over(m),
    ensures
        m.bricks.len() == 0 ==> round_closed(m, draws).wave_number == cap_u32(m.wave_number + 1)
            && round_closed(m, draws).bricks == layout(cap_u32(m.wave_number + 1), draws),
        m.bricks.len() > 0 ==> round_closed(m, draws).bricks.len() == m.bricks.len()
            && forall|i: int|
            0 <= i < m.bricks.len() ==> (#[trigger] round_closed(m, draws).bricks[i]) == lowered(
                m.bricks[i],
            ),
        m.bricks.len() > 0 && !over_limit(m.bricks.map_values(|b: Brick| lowered(b)))
            ==> round_closed(m, draws).wave_number == m.wave_number,
        !round_closed(m, draws).round && round_closed(m, draws).balls_in_round == 0,
{
}

/// The projectile is in play and its next tick is not a side bounce that
/// would carry it over the ceiling unchecked.
pub open spec fn safely_in_play(b: Ball, size: u32) -> bool {
    b.in_play() && !(!b.expired() && b.hits_side(size) && b.next_y() + b.vy < Ball::play_top())
}

/// The motion step keeps projectiles in play: if every projectile is in play
/// and none is about to bounce off a side towards the ceiling, every
/// projectile left after the step is in play, whatever the bricks.
pub proof fn lemma_motion_keeps_in_play(balls: Seq<Ball>, bricks: Seq<Brick>, damage: u32, size: u32)
    requires
        forall|i: int| 0 <= i < balls.len() ==> safely_in_play(#[trigger] balls[i], size),
    ensures
        forall|i: int|
            0 <= i < advance_all(balls, bricks, damage, size).0.len() ==> (#[trigger] advance_all(
                balls,
                bricks,
                damage,
                size,
            ).0[i]).in_play(),
    decreases balls.len(),
{
    if balls.len() > 0 {
        let rest = balls.drop_last();
        assert forall|i: int| 0 <= i < rest.len() implies safely_in_play(#[trigger] rest[i], size) by {
            assert(rest[i] == balls[i]);
        }
        lemma_motion_keeps_in_play(rest, bricks, damage, size);
        let br = advance_all(rest, bricks, damage, size).1;
        assert(safely_in_play(balls[balls.len() - 1], size));
        lemma_tick_keeps_in_play(balls.last(), size, br);
    }
}

/// A tick of the game keeps every projectile in play, so within the window:
/// before it, each projectile is in play and not about to bounce off a side
/// towards the ceiling; projectiles have a diameter of at most 470 pixels; and
/// a projectile launched now moves at most `MAX_SPEED` along each axis.
pub proof fn lemma_tick_keeps_balls_in_play(
    m: GameModel,
    frame: u64,
    vx: i64,
    vy: i64,
    now_ms: u64,
    draws: Seq<CellDraw>,
)
    requires
        forall|i: int| 0 <= i < m.balls.len() ==> safely_in_play(#[trigger] m.balls[i], m.ball_size),
        m.ball_size <= 470,
        -MAX_SPEED <= vx <= MAX_SPEED,
        -MAX_SPEED <= vy <= MAX_SPEED,
    ensures
        forall|i: int|
            0 <= i < ticked(m, frame, vx, vy, now_ms, draws).balls.len() ==> (#[trigger] ticked(
                m,
                frame,
                vx,
                vy,
                now_ms,
                draws,
            ).balls[i]).in_play(),
{
    if m.started && !m.paused {
        let m1 = if m.loaded {
            m
        } else {
            GameModel { bricks: layout(m.wave_number, draws), loaded: true, ..m }
        };
        let m2 = spawned(m1, frame, vx, vy);
        lemma_launch_in_play(m.ball_size, vx, vy);
        assert(SUBPIXELS / 2 == 500);
        assert forall|i: int| 0 <= i < m2.balls.len() implies safely_in_play(
            #[trigger] m2.balls[i],
            m2.ball_size,
        ) by {
            if i < m.balls.len() {
                assert(m2.balls[i] == m.balls[i]);
            }
        }
        lemma_motion_keeps_in_play(m2.balls, m2.bricks, m2.ball_damage, m2.ball_size);
    }
}

/// Positions, in order, of the projectiles of `balls` that have not expired.
pub open spec fn live_indices(balls: Seq<Ball>) -> Seq<int>
    decreases balls.len(),
{
    if balls.len() == 0 {
        Seq::empty()
    } else {
        let prev = live_indices(balls.drop_last());
        if balls.last().expired() {
            prev
        } else {
            prev.push(balls.len() - 1)
        }
    }
}

/// The motion step keeps, in their order, exactly the projectiles that had not
/// expired, and an expired projectile is never advanced again. Each kept
/// projectile is that projectile after one tick among the bricks as the
/// projectiles before it left them, and has the same speed along each axis.
pub proof fn lemma_motion_keeps_live_balls(
    balls: Seq<Ball>,
    bricks: Seq<Brick>,
    damage: u32,
    size: u32,
)
    requires
        balls_wf(balls),
    ensures
        ({
            let kept = advance_all(balls, bricks, damage, size).0;
            let live = live_indices(balls);
            &&& kept.len() == live.len()
            &&& forall|i: int| 0 <= i < live.len() ==> 0 <= #[trigger] live[i] < balls.len() && !balls[live[i]].expired()
            &&& forall|i: int, j: int| 0 <= i < j < live.len() ==> live[i] < live[j]
            &&& forall|k: int| 0 <= k < balls.len() && !(#[trigger] balls[k]).expired() ==> live.contains(k)
            &&& forall|i: int|
                0 <= i < live.len() ==> #[trigger] kept[i] == balls[live[i]].after_tick(
                    size,
                    advance_all(balls.subrange(0, live[i]), bricks, damage, size).1,
                )
            &&& forall|i: int|
                0 <= i < live.len() ==> {
                    &&& (#[trigger] kept[i]).vx == balls[live[i]].vx || kept[i].vx == -balls[live[i]].vx
                    &&& kept[i].vy == balls[live[i]].vy || kept[i].vy == -balls[live[i]].vy
                }
        }),
    decreases balls.len(),
{
    if balls.len() > 0 {
        let dl = balls.drop_last();
        assert(balls_wf(dl)) by {
            assert forall|i: int| 0 <= i < dl.len() implies (#[trigger] dl[i]).wf() by {
                assert(dl[i] == balls[i]);
            }
        }
        lemma_motion_keeps_live_balls(dl, bricks, damage, size);
        let n = balls.len() - 1;
        let br = advance_all(dl, bricks, damage, size).1;
        assert(balls.subrange(0, n) =~= dl);
        let kept = advance_all(balls, bricks, damage, size).0;
        let live = live_indices(balls);
        let kd = advance_all(dl, bricks, damage, size).0;
        let ld = live_indices(dl);
        assert forall|i: int| 0 <= i < ld.len() implies balls.subrange(0, #[trigger] ld[i]) == dl.subrange(0, ld[i]) by {
            assert(balls.subrange(0, ld[i]) =~= dl.subrange(0, ld[i]));
        }
        assert forall|i: int| 0 <= i < live.len() implies #[trigger] kept[i] == balls[live[i]].after_tick(
            size,
            advance_all(balls.subrange(0, live[i]), bricks, damage, size).1,
        ) by {
            if i < ld.len() {
                assert(balls.subrange(0, ld[i]) == dl.subrange(0, ld[i]));
                assert(balls[ld[i]] == dl[ld[i]]);
            }
        }
        assert forall|i: int| 0 <= i < live.len() implies {
            &&& (#[trigger] kept[i]).vx == balls[live[i]].vx || kept[i].vx == -balls[live[i]].vx
            &&& kept[i].vy == balls[live[i]].vy || kept[i].vy == -balls[live[i]].vy
        } by {
            assert(balls[live[i]].wf());
            lemma_speed_kept(
                balls[live[i]],
                size,
                advance_all(balls.subrange(0, live[i]), bricks, damage, size).1,
            );
        }
        assert forall|k: int| 0 <= k < balls.len() && !(#[trigger] balls[k]).expired() implies live.contains(k) by {
            if k < n {
                assert(dl[k] == balls[k]);
                let w = choose|w: int| 0 <= w < ld.len() && ld[w] == k;
                assert(live[w] == k);
            } else {
                assert(live[live.len() - 1] == k);
            }
        }
        assert forall|i: int| 0 <= i < live.len() implies 0 <= #[trigger] live[i] < balls.len() && !balls[live[i]].expired() by {
            if i < ld.len() {
                assert(balls[ld[i]] == dl[ld[i]]);
            }
        }
    }
}

/// In a tick of a running game, the round ends exactly when no projectile is
/// left after the motion step and a round was running. Then the wave advances
/// to a fresh layout when no brick is left, and otherwise the bricks move down
/// one step (and the game may be lost). When the round goes on, nothing of the
/// end of a round happens: the wave number, round and loss flags stay, and the
/// bricks are those left by the removal step, neither moved nor regenerated.
pub proof fn lemma_tick_round_end(
    m: GameModel,
    frame: u64,
    vx: i64,
    vy: i64,
    now_ms: u64,
    draws: Seq<CellDraw>,
)
    requires
        m.started && !m.paused,
    ensures
        ({
            let c = before_round_close(m, frame, vx, vy, now_ms, draws);
            let t = ticked(m, frame, vx, vy, now_ms, draws);
            &&& c.round == m.round && c.wave_number == m.wave_number && c.lost == m.lost
            &&& round_over(c) == (c.balls.len() == 0 && m.round)
            &&& tick_events(m, frame, vx, vy, now_ms, draws).round_end == round_end_of(c)
            &&& t == (GameModel { bonus: t.bonus, ..round_closed(c, draws) })
            &&& round_over(c) && c.bricks.len() == 0 ==> t.wave_number == cap_u32(m.wave_number + 1)
                && t.bricks == layout(cap_u32(m.wave_number + 1), draws) && !t.round
                && t.balls_in_round == 0 && t.lost == m.lost
            &&& round_over(c) && c.bricks.len() > 0 ==> t.bricks.len() == c.bricks.len()
                && (forall|i: int| 0 <= i < c.bricks.len() ==> (#[trigger] t.bricks[i]) == lowered(c.bricks[i]))
                && !t.round && t.balls_in_round == 0
            &&& round_over(c) && c.bricks.len() > 0 && !over_limit(c.bricks.map_values(|b: Brick| lowered(b)))
                ==> t.wave_number == m.wave_number && !t.lost
            &&& !round_over(c) ==> t.wave_number == m.wave_number && t.round == m.round && t.lost
                == m.lost && t.bricks == c.bricks && t.bricks == survivors(advanced(spawned(loaded_with(m, draws), frame, vx, vy)).bricks)
        }),
{
    let c = before_round_close(m, frame, vx, vy, now_ms, draws);
    if round_over(c) {
        lemma_wave_or_descent(c, draws);
    }
}

/// In a tick of a running game, the projectiles left are, in order, exactly
/// those that had not expired among the projectiles present after spawning,
/// each advanced by one tick and with the same speed along each axis; an
/// expired projectile is not advanced again.
pub proof fn lemma_tick_keeps_live_balls(
    m: GameModel,
    frame: u64,
    vx: i64,
    vy: i64,
    now_ms: u64,
    draws: Seq<CellDraw>,
)
    requires
        m.started && !m.paused,
        balls_wf(m.balls),
        vx > i64::MIN,
        vy > i64::MIN,
    ensures
        ({
            let s = spawned(loaded_with(m, draws), frame, vx, vy);
            let t = ticked(m, frame, vx, vy, now_ms, draws);
            let live = live_indices(s.balls);
            &&& t.balls == advance_all(s.balls, s.bricks, s.ball_damage, s.ball_size).0
            &&& t.balls.len() == live.len()
            &&& forall|i: int| 0 <= i < live.len() ==> 0 <= #[trigger] live[i] < s.balls.len() && !s.balls[live[i]].expired()
            &&& forall|i: int, j: int| 0 <= i < j < live.len() ==> live[i] < live[j]
            &&& forall|k: int| 0 <= k < s.balls.len() && !(#[trigger] s.balls[k]).expired() ==> live.contains(k)
            &&& forall|i: int|
                0 <= i < live.len() ==> {
                    &&& (#[trigger] t.balls[i]).vx == s.balls[live[i]].vx || t.balls[i].vx == -s.balls[live[i]].vx
                    &&& t.balls[i].vy == s.balls[live[i]].vy || t.balls[i].vy == -s.balls[live[i]].vy
                }
        }),
{
    let s = spawned(loaded_with(m, draws), frame, vx, vy);
    assert(balls_wf(s.balls)) by {
        assert forall|i: int| 0 <= i < s.balls.len() implies (#[trigger] s.balls[i]).wf() by {
            if i < m.balls.len() {
                assert(s.balls[i] == m.balls[i]);
            }
        }
    }
    lemma_motion_keeps_live_balls(s.balls, s.bricks, s.ball_damage, s.ball_size);
}

} // verus!
