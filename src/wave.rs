use vstd::prelude::*;
use crate::brick::{cell_rect, Brick, BrickKind};
use crate::geometry::boxes_meet;
use crate::config::{BRICK_CHANCE, BRICK_LIFE, CELL_STEP, GRID_COLUMNS, SPECIAL_CHANCE};

verus! {

/// Number of cells of the brick grid: `GRID_ROWS` rows of `GRID_COLUMNS` cells.
pub const GRID_CELLS: usize = 144;

/// The random draws that decide one grid cell: `presence` and `special` are
/// percentages, `kind` picks one of the four special kinds.
#[derive(Clone, Copy, Debug, PartialEq, Eq, Structural)]
pub struct CellDraw {
    pub presence: u32,
    pub special: u32,
    pub kind: u32,
}

impl CellDraw {
    /// Each draw lies in the range it was drawn from.
    pub open spec fn in_range(self) -> bool {
        self.presence < 100 && self.special < 100 && self.kind < 4
    }
}

/// The special kind that the draw `k` selects.
pub open spec fn special_kind(k: u32) -> BrickKind {
    if k == 0 {
        BrickKind::Bomb
    } else if k == 1 {
        BrickKind::MoreBalls
    } else if k == 2 {
        BrickKind::MoreDamage
    } else {
        BrickKind::BiggerBalls
    }
}

/// The brick, if any, that cell `k` (counted row by row) holds in wave `n`:
/// rows up to `n` are unlocked, and an unlocked cell holds a brick when its
/// presence draw is under `BRICK_CHANCE`.
pub open spec fn cell_brick(n: u32, k: int, d: CellDraw) -> Option<Brick> {
    let row = k / GRID_COLUMNS as int;
    let col = k % GRID_COLUMNS as int;
    if row <= n && d.presence < BRICK_CHANCE {
        Some(
            Brick {
                rect: cell_rect(col, row),
                life: BRICK_LIFE,
                brick_type: if d.special < SPECIAL_CHANCE {
                    special_kind(d.kind)
                } else {
                    BrickKind::Normal
                },
            },
        )
    } else {
        None
    }
}

/// The bricks of wave `n` for the draws of the first `draws.len()` cells, in
/// the order of the cells.
pub open spec fn layout(n: u32, draws: Seq<CellDraw>) -> Seq<Brick>
    decreases draws.len(),
{
    if draws.len() == 0 {
        Seq::empty()
    } else {
        let k = draws.len() - 1;
        let prev = layout(n, draws.drop_last());
        match cell_brick(n, k, draws[k]) {
            Some(b) => prev.push(b),
            None => prev,
        }
    }
}

/// Every brick of a layout is fresh and lies in a grid cell.
pub proof fn lemma_layout_fresh(n: u32, draws: Seq<CellDraw>)
    ensures
        forall|i: int|
            0 <= i < layout(n, draws).len() ==> (#[trigger] layout(n, draws)[i]).life == BRICK_LIFE,
        layout(n, draws).len() <= draws.len(),
    decreases draws.len(),
{
    if draws.len() > 0 {
        lemma_layout_fresh(n, draws.drop_last());
    }
}

/// A wave: its number and the bricks still standing.
pub struct Wave {
    pub wave_number: u32,
    pub bricks: Vec<Brick>,
}

/// Relies on rand's `thread_rng` and `Rng::gen_range`: a value drawn from
/// `0..bound`; `gen_range` panics only on an empty range.
#[verifier::external_body]
fn random_below(bound: u32) -> (r: u32)
    requires
        bound > 0,
    ensures
        r < bound,
{
    rand::Rng::gen_range(&mut rand::thread_rng(), 0..bound)
}

/// Fresh random draws for every cell of the grid.
pub fn random_draws() -> (r: Vec<CellDraw>)
    ensures
        r@.len() == GRID_CELLS,
        forall|k: int| 0 <= k < r@.len() ==> (#[trigger] r@[k]).in_range(),
{
    let mut draws: Vec<CellDraw> = Vec::new();
    let mut k: usize = 0;
    while k < GRID_CELLS
        invariant
            k <= GRID_CELLS,
            draws@.len() == k,
            forall|j: int| 0 <= j < k ==> (#[trigger] draws@[j]).in_range(),
        decreases GRID_CELLS - k,
    {
        let presence = random_below(100);
        let special = random_below(100);
        let kind = random_below(4);
        draws.push(CellDraw { presence, special, kind });
        k = k + 1;
    }
    draws
}

fn pick_special(k: u32) -> (r: BrickKind)
    ensures
        r == special_kind(k),
{
    if k == 0 {
        BrickKind::Bomb
    } else if k == 1 {
        BrickKind::MoreBalls
    } else if k == 2 {
        BrickKind::MoreDamage
    } else {
        BrickKind::BiggerBalls
    }
}

/// The bricks of wave `n` for the given draws, one per cell.
pub fn layout_bricks(n: u32, draws: &Vec<CellDraw>) -> (r: Vec<Brick>)
    requires
        draws@.len() == GRID_CELLS,
    ensures
        r@ == layout(n, draws@),
{
    let mut bricks: Vec<Brick> = Vec::new();
    let mut k: usize = 0;
    while k < GRID_CELLS
        invariant
            k <= GRID_CELLS,
            draws@.len() == GRID_CELLS,
            bricks@ == layout(n, draws@.subrange(0, k as int)),
        decreases GRID_CELLS - k,
    {
        let d = draws[k];
        let row = k / GRID_COLUMNS as usize;
        let col = k % GRID_COLUMNS as usize;
        assert(draws@.subrange(0, k + 1).drop_last() =~= draws@.subrange(0, k as int));
        if row <= n as usize && d.presence < BRICK_CHANCE {
            let kind = if d.special < SPECIAL_CHANCE {
                pick_special(d.kind)
            } else {
                BrickKind::Normal
            };
            bricks.push(Brick::new(col as i32, row as i32, BRICK_LIFE, kind));
        }
        k = k + 1;
    }
    assert(draws@.subrange(0, GRID_CELLS as int) =~= draws@);
    bricks
}

impl Wave {
    /// Wave `wave_number`, with no bricks yet.
    pub fn new(wave_number: u32) -> (r: Wave)
        ensures
            r.wave_number == wave_number,
            r.bricks@.len() == 0,
    {
        Wave { wave_number, bricks: Vec::new() }
    }

    /// Replaces the bricks with the layout of this wave for the given draws.
    pub fn load_bricks_from(&mut self, draws: &Vec<CellDraw>)
        requires
            draws@.len() == GRID_CELLS,
        ensures
            final(self).wave_number == old(self).wave_number,
            final(self).bricks@ == layout(old(self).wave_number, draws@),
    {
        self.bricks = layout_bricks(self.wave_number, draws);
    }

    /// Replaces the bricks with a random layout of this wave.
    pub fn load_bricks(&mut self)
        ensures
            final(self).wave_number == old(self).wave_number,
            exists|d: Seq<CellDraw>|
                d.len() == GRID_CELLS && (forall|k: int| 0 <= k < d.len() ==> (#[trigger] d[k]).in_range())
                    && final(self).bricks@ == layout(old(self).wave_number, d),
    {
        let draws = random_draws();
        self.load_bricks_from(&draws);
    }
}

/// The cells, counted row by row, that the bricks of `layout(n, draws)` come from.
pub open spec fn layout_cells(n: u32, draws: Seq<CellDraw>) -> Seq<int>
    decreases draws.len(),
{
    if draws.len() == 0 {
        Seq::empty()
    } else {
        let k = draws.len() - 1;
        let prev = layout_cells(n, draws.drop_last());
        match cell_brick(n, k, draws[k]) {
            Some(b) => prev.push(k),
            None => prev,
        }
    }
}

proof fn lemma_layout_cells(n: u32, draws: Seq<CellDraw>)
    ensures
        layout_cells(n, draws).len() == layout(n, draws).len(),
        forall|i: int|
            0 <= i < layout(n, draws).len() ==> {
                let k = #[trigger] layout_cells(n, draws)[i];
                &&& 0 <= k < draws.len()
                &&& layout(n, draws)[i].rect == cell_rect(
                    k % GRID_COLUMNS as int,
                    k / GRID_COLUMNS as int,
                )
            },
        forall|i: int, j: int|
            0 <= i < j < layout(n, draws).len() ==> layout_cells(n, draws)[i] < layout_cells(
                n,
                draws,
            )[j],
    decreases draws.len(),
{
    if draws.len() > 0 {
        lemma_layout_cells(n, draws.drop_last());
    }
}

proof fn lemma_cells_apart(k1: int, k2: int)
    requires
        0 <= k1 < k2 < GRID_CELLS,
    ensures
        ({
            let a = cell_rect(k1 % GRID_COLUMNS as int, k1 / GRID_COLUMNS as int);
            let b = cell_rect(k2 % GRID_COLUMNS as int, k2 / GRID_COLUMNS as int);
            !boxes_meet(
                a.x as int,
                a.y as int,
                a.w as int,
                a.h as int,
                b.x as int,
                b.y as int,
                b.w as int,
                b.h as int,
            )
        }),
{
    let (c1, r1, c2, r2) = (k1 % 12, k1 / 12, k2 % 12, k2 / 12);
    assert(0 <= c1 < 12 && 0 <= r1 < 12 && k1 == r1 * 12 + c1) by (nonlinear_arith)
        requires
            0 <= k1 < 144,
            c1 == k1 % 12,
            r1 == k1 / 12,
    ;
    assert(0 <= c2 < 12 && 0 <= r2 < 12 && k2 == r2 * 12 + c2) by (nonlinear_arith)
        requires
            0 <= k2 < 144,
            c2 == k2 % 12,
            r2 == k2 / 12,
    ;
    assert(c1 != c2 || r1 != r2);
    assert(c1 * CELL_STEP + 30 <= c2 * CELL_STEP || c2 * CELL_STEP + 30 <= c1 * CELL_STEP || r1
        * CELL_STEP + 30 <= r2 * CELL_STEP || r2 * CELL_STEP + 30 <= r1 * CELL_STEP)
        by (nonlinear_arith)
        requires
            c1 != c2 || r1 != r2,
    ;
}

/// No two bricks of a generated layout overlap.
pub proof fn lemma_layout_disjoint(n: u32, draws: Seq<CellDraw>)
    requires
        draws.len() <= GRID_CELLS,
    ensures
        forall|i: int, j: int|
            0 <= i < j < layout(n, draws).len() ==> {
                let a = #[trigger] layout(n, draws)[i].rect;
                let b = #[trigger] layout(n, draws)[j].rect;
                !boxes_meet(
                    a.x as int,
                    a.y as int,
                    a.w as int,
                    a.h as int,
                    b.x as int,
                    b.y as int,
                    b.w as int,
                    b.h as int,
                )
            },
{
    lemma_layout_cells(n, draws);
    assert forall|i: int, j: int| 0 <= i < j < layout(n, draws).len() implies {
        let a = #[trigger] layout(n, draws)[i].rect;
        let b = #[trigger] layout(n, draws)[j].rect;
        !boxes_meet(
            a.x as int,
            a.y as int,
            a.w as int,
            a.h as int,
            b.x as int,
            b.y as int,
            b.w as int,
            b.h as int,
        )
    } by {
        let k1 = layout_cells(n, draws)[i];
        let k2 = layout_cells(n, draws)[j];
        lemma_cells_apart(k1, k2);
    }
}

} // verus!
