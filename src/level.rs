use vstd::prelude::*;
use crate::brick::{cell_rect, Brick, BrickKind};
use crate::wave::{cell_brick, layout, CellDraw, GRID_CELLS};

verus! {

/// Longest level text that `parse_level` takes: every grid position it can
/// produce then has a box in `i32` coordinates.
pub const MAX_LEVEL_LEN: usize = 60_000_000;

/// The pieces of `t` between occurrences of `sep`, in order; there is always
/// at least one, possibly empty.
pub open spec fn split(t: Seq<u8>, sep: u8) -> Seq<Seq<u8>>
    decreases t.len(),
{
    if t.len() == 0 {
        seq![Seq::empty()]
    } else {
        let p = split(t.drop_last(), sep);
        if t.last() == sep {
            p.push(Seq::empty())
        } else {
            p.update(p.len() - 1, p.last().push(t.last()))
        }
    }
}

/// The lines of a text: the pieces between newlines, without a final empty
/// piece after a closing newline, and without a carriage return ending a line.
pub open spec fn level_lines(t: Seq<u8>) -> Seq<Seq<u8>> {
    let p = split(t, 10u8);
    let lines = if p.last().len() == 0 {
        p.drop_last()
    } else {
        p
    };
    lines.map_values(|l: Seq<u8>| trim_cr(l))
}

/// `l` without a final carriage return.
pub open spec fn trim_cr(l: Seq<u8>) -> Seq<u8> {
    if l.len() > 0 && l.last() == 13u8 {
        l.drop_last()
    } else {
        l
    }
}

/// Every byte of `t` is an ASCII digit.
pub open spec fn is_digits(t: Seq<u8>) -> bool {
    forall|i: int| 0 <= i < t.len() ==> 48 <= #[trigger] t[i] <= 57
}

/// The decimal number that the digits `t` spell.
pub open spec fn digits_value(t: Seq<u8>) -> int
    decreases t.len(),
{
    if t.len() == 0 {
        0
    } else {
        digits_value(t.drop_last()) * 10 + (t.last() - 48)
    }
}

/// The hit points that a token gives: an unsigned decimal number, with an
/// optional leading `+`, that fits in an `i32`.
pub open spec fn token_life(tok: Seq<u8>) -> Option<int> {
    let d = if tok.len() > 0 && tok[0] == 43u8 {
        tok.drop_first()
    } else {
        tok
    };
    if d.len() > 0 && is_digits(d) && digits_value(d) <= i32::MAX {
        Some(digits_value(d))
    } else {
        None
    }
}

/// Every token of a row is empty or gives hit points.
pub open spec fn row_ok(toks: Seq<Seq<u8>>) -> bool {
    forall|i: int| 0 <= i < toks.len() ==> (#[trigger] toks[i]).len() == 0 || token_life(toks[i]).is_some()
}

/// The bricks of row `j` with tokens `toks`: token `i` with positive hit
/// points gives a normal brick at column `i`.
pub open spec fn row_bricks(toks: Seq<Seq<u8>>, j: int) -> Seq<Brick>
    decreases toks.len(),
{
    if toks.len() == 0 {
        Seq::empty()
    } else {
        let prev = row_bricks(toks.drop_last(), j);
        let life = token_life(toks.last());
        if life.is_some() && life.unwrap() > 0 {
            prev.push(
                Brick {
                    rect: cell_rect(toks.len() - 1, j),
                    life: life.unwrap() as i32,
                    brick_type: BrickKind::Normal,
                },
            )
        } else {
            prev
        }
    }
}

/// The bricks of the rows `lines`, in order; a row with a token that gives no
/// hit points is left empty.
pub open spec fn level_rows(lines: Seq<Seq<u8>>) -> Seq<Brick>
    decreases lines.len(),
{
    if lines.len() == 0 {
        Seq::empty()
    } else {
        let prev = level_rows(lines.drop_last());
        let toks = split(lines.last(), 32u8);
        if row_ok(toks) {
            prev + row_bricks(toks, lines.len() - 1)
        } else {
            prev
        }
    }
}

/// Some row of `lines` has a token that gives no hit points.
pub open spec fn has_bad_row(lines: Seq<Seq<u8>>) -> bool {
    exists|j: int| 0 <= j < lines.len() && !row_ok(split(#[trigger] lines[j], 32u8))
}

/// What a level text gives: its bricks, and whether a row was dropped.
pub struct Level {
    pub bricks: Vec<Brick>,
    pub bad_rows: bool,
}

/// The pieces of `t[lo..hi]` between occurrences of `sep`, as ranges of `t`.
fn split_ranges(t: &Vec<u8>, lo: usize, hi: usize, sep: u8) -> (r: Vec<(usize, usize)>)
    requires
        lo <= hi <= t@.len(),
    ensures
        r@.len() == split(t@.subrange(lo as int, hi as int), sep).len(),
        r@.len() <= hi - lo + 1,
        forall|k: int|
            0 <= k < r@.len() ==> {
                let (a, b) = #[trigger] r@[k];
                &&& lo <= a <= b <= hi
                &&& t@.subrange(a as int, b as int) == split(
                    t@.subrange(lo as int, hi as int),
                    sep,
                )[k]
            },
{
    let mut r: Vec<(usize, usize)> = Vec::new();
    let mut start = lo;
    let mut pos = lo;
    while pos < hi
        invariant
            lo <= start <= pos <= hi <= t@.len(),
            split(t@.subrange(lo as int, pos as int), sep).len() == r@.len() + 1,
            r@.len() <= pos - lo,
            t@.subrange(start as int, pos as int) == split(
                t@.subrange(lo as int, pos as int),
                sep,
            ).last(),
            forall|k: int|
                0 <= k < r@.len() ==> {
                    let (a, b) = #[trigger] r@[k];
                    &&& lo <= a <= b <= pos
                    &&& t@.subrange(a as int, b as int) == split(
                        t@.subrange(lo as int, pos as int),
                        sep,
                    )[k]
                },
        decreases hi - pos,
    {
        let ghost before = split(t@.subrange(lo as int, pos as int), sep);
        assert(t@.subrange(lo as int, pos + 1).drop_last() =~= t@.subrange(lo as int, pos as int));
        assert(t@.subrange(lo as int, pos + 1).last() == t@[pos as int]);
        if t[pos] == sep {
            r.push((start, pos));
            start = pos + 1;
            assert(t@.subrange(start as int, pos + 1) =~= Seq::<u8>::empty());
        } else {
            assert(t@.subrange(start as int, pos + 1) =~= t@.subrange(start as int, pos as int).push(
                t@[pos as int],
            ));
        }
        pos = pos + 1;
    }
    r.push((start, hi));
    r
}

proof fn lemma_split_nonempty(t: Seq<u8>, sep: u8)
    ensures
        split(t, sep).len() >= 1,
    decreases t.len(),
{
    if t.len() > 0 {
        lemma_split_nonempty(t.drop_last(), sep);
    }
}

proof fn lemma_digits_grow(d: Seq<u8>, n: int)
    requires
        is_digits(d),
        0 <= n <= d.len(),
    ensures
        0 <= digits_value(d.subrange(0, n)) <= digits_value(d),
    decreases d.len(),
{
    if n < d.len() {
        let dl = d.drop_last();
        assert(dl.subrange(0, n) =~= d.subrange(0, n));
        lemma_digits_grow(dl, n);
        lemma_digits_grow(dl, dl.len() as int);
        assert(dl.subrange(0, dl.len() as int) =~= dl);
    } else {
        assert(d.subrange(0, n) =~= d);
        if d.len() > 0 {
            lemma_digits_grow(d.drop_last(), d.len() - 1);
            assert(d.drop_last().subrange(0, d.len() - 1) =~= d.drop_last());
        }
    }
}

/// The hit points that the token `t[a..b]` gives, if any.
fn parse_token(t: &Vec<u8>, a: usize, b: usize) -> (r: Option<i32>)
    requires
        a <= b <= t@.len(),
    ensures
        token_life(t@.subrange(a as int, b as int)) is Some ==> r == Some(
            token_life(t@.subrange(a as int, b as int)).unwrap() as i32,
        ),
        token_life(t@.subrange(a as int, b as int)) is None ==> r is None,
        token_life(t@.subrange(a as int, b as int)) is Some ==> 0 <= token_life(
            t@.subrange(a as int, b as int),
        ).unwrap() <= i32::MAX,
{
    let ghost tok = t@.subrange(a as int, b as int);
    let mut s = a;
    if a < b && t[a] == 43u8 {
        s = a + 1;
        assert(tok.drop_first() =~= t@.subrange(s as int, b as int));
    }
    let ghost d = t@.subrange(s as int, b as int);
    assert(d == if tok.len() > 0 && tok[0] == 43u8 {
        tok.drop_first()
    } else {
        tok
    });
    if s == b {
        return None;
    }
    let mut val: i64 = 0;
    let mut i = s;
    assert(t@.subrange(s as int, s as int) =~= Seq::<u8>::empty());
    while i < b
        invariant
            a <= s <= i <= b <= t@.len(),
            d == t@.subrange(s as int, b as int),
            tok == t@.subrange(a as int, b as int),
            d == if tok.len() > 0 && tok[0] == 43u8 {
                tok.drop_first()
            } else {
                tok
            },
            is_digits(t@.subrange(s as int, i as int)),
            val == digits_value(t@.subrange(s as int, i as int)),
            0 <= val <= i32::MAX,
        decreases b - i,
    {
        let c = t[i];
        assert(d[i - s] == c);
        if c < 48u8 || c > 57u8 {
            assert(!is_digits(d));
            return None;
        }
        let ghost p = t@.subrange(s as int, i + 1);
        assert(p.drop_last() =~= t@.subrange(s as int, i as int));
        assert(p.last() == c);
        let nv = val * 10 + (c - 48u8) as i64;
        if nv > i32::MAX as i64 {
            proof {
                if is_digits(d) {
                    assert(d.subrange(0, i + 1 - s) =~= p);
                    lemma_digits_grow(d, i + 1 - s);
                }
            }
            return None;
        }
        val = nv;
        i = i + 1;
    }
    assert(t@.subrange(s as int, i as int) =~= d);
    Some(val as i32)
}

/// Reads a level text: one row of the grid per line, tokens separated by
/// single spaces, token `i` of line `j` giving the hit points of the brick at
/// column `i` and row `j`. A token of `0`, or an empty one, leaves the cell
/// empty; a line holding any other token that is not a number of hit points
/// is dropped whole and reported.
pub fn parse_level(text: &Vec<u8>) -> (r: Level)
    requires
        text@.len() <= MAX_LEVEL_LEN,
    ensures
        r.bricks@ == level_rows(level_lines(text@)),
        r.bad_rows == has_bad_row(level_lines(text@)),
{
    let ghost lines = level_lines(text@);
    let pieces = split_ranges(text, 0, text.len(), 10u8);
    assert(text@.subrange(0, text@.len() as int) =~= text@);
    proof {
        lemma_split_nonempty(text@, 10u8);
    }
    let mut nlines = pieces.len();
    let (la, lb) = pieces[nlines - 1];
    if la == lb {
        nlines = nlines - 1;
    }
    assert(lines.len() == nlines);
    let mut bricks: Vec<Brick> = Vec::new();
    let mut bad = false;
    let mut j: usize = 0;
    assert(lines.subrange(0, 0) =~= Seq::<Seq<u8>>::empty());
    while j < nlines
        invariant
            j <= nlines == lines.len(),
            nlines <= pieces@.len() <= text@.len() + 1,
            text@.len() <= MAX_LEVEL_LEN,
            lines == level_lines(text@),
            forall|k: int|
                0 <= k < nlines ==> {
                    let (a, b) = #[trigger] pieces@[k];
                    &&& a <= b <= text@.len()
                    &&& lines[k] == trim_cr(text@.subrange(a as int, b as int))
                },
            bricks@ == level_rows(lines.subrange(0, j as int)),
            bad == has_bad_row(lines.subrange(0, j as int)),
        decreases nlines - j,
    {
        let (a, b0) = pieces[j];
        let b = if b0 > a && text[b0 - 1] == 13u8 {
            b0 - 1
        } else {
            b0
        };
        assert(trim_cr(text@.subrange(a as int, b0 as int)) =~= text@.subrange(a as int, b as int));
        let ghost line = lines[j as int];
        let ghost toks = split(line, 32u8);
        let tok_ranges = split_ranges(text, a, b, 32u8);
        let mut row: Vec<Brick> = Vec::new();
        let mut ok = true;
        let mut i: usize = 0;
        assert(toks.subrange(0, 0) =~= Seq::<Seq<u8>>::empty());
        while i < tok_ranges.len()
            invariant
                i <= tok_ranges@.len() == toks.len(),
                tok_ranges@.len() <= text@.len() + 1,
                text@.len() <= MAX_LEVEL_LEN,
                j < nlines <= text@.len() + 1,
                a <= b <= text@.len(),
                line == text@.subrange(a as int, b as int),
                toks == split(line, 32u8),
                forall|k: int|
                    0 <= k < tok_ranges@.len() ==> {
                        let (ta, tb) = #[trigger] tok_ranges@[k];
                        &&& ta <= tb <= text@.len()
                        &&& text@.subrange(ta as int, tb as int) == toks[k]
                    },
                row@ == row_bricks(toks.subrange(0, i as int), j as int),
                ok == row_ok(toks.subrange(0, i as int)),
            decreases tok_ranges@.len() - i,
        {
            let (ta, tb) = tok_ranges[i];
            let ghost pre = toks.subrange(0, i + 1);
            assert(pre.drop_last() =~= toks.subrange(0, i as int));
            assert(pre.last() == toks[i as int]);
            assert(text@.subrange(ta as int, tb as int) == toks[i as int]);
            let life = parse_token(text, ta, tb);
            match life {
                Some(v) => {
                    if v > 0 {
                        row.push(Brick::new(i as i32, j as i32, v, BrickKind::Normal));
                    }
                },
                None => {
                    if ta < tb {
                        ok = false;
                    }
                },
            }
            assert(ok == row_ok(pre)) by {
                if !ok && row_ok(pre) {
                    if !row_ok(toks.subrange(0, i as int)) {
                        let w = choose|w: int|
                            0 <= w < i && !((#[trigger] toks.subrange(0, i as int)[w]).len() == 0
                                || token_life(toks.subrange(0, i as int)[w]).is_some());
                        assert(pre[w] == toks.subrange(0, i as int)[w]);
                    } else {
                        assert(pre[i as int] == toks[i as int]);
                    }
                }
                if ok {
                    assert forall|w: int| 0 <= w < pre.len() implies (#[trigger] pre[w]).len() == 0
                        || token_life(pre[w]).is_some() by {
                        if w < i {
                            assert(pre[w] == toks.subrange(0, i as int)[w]);
                        }
                    }
                }
            }
            i = i + 1;
        }
        assert(toks.subrange(0, toks.len() as int) =~= toks);
        let ghost pre_lines = lines.subrange(0, j + 1);
        assert(pre_lines.drop_last() =~= lines.subrange(0, j as int));
        assert(pre_lines.last() == line);
        if ok {
            let ghost old_bricks = bricks@;
            let mut k: usize = 0;
            while k < row.len()
                invariant
                    k <= row@.len(),
                    bricks@ == old_bricks + row@.subrange(0, k as int),
                decreases row@.len() - k,
            {
                bricks.push(row[k]);
                assert(old_bricks + row@.subrange(0, k + 1) =~= (old_bricks + row@.subrange(
                    0,
                    k as int,
                )).push(row@[k as int]));
                k = k + 1;
            }
            assert(row@.subrange(0, row@.len() as int) =~= row@);
        } else {
            bad = true;
        }
        assert(bad == has_bad_row(pre_lines)) by {
            if has_bad_row(lines.subrange(0, j as int)) {
                let w = choose|w: int|
                    0 <= w < j && !row_ok(split(#[trigger] lines.subrange(0, j as int)[w], 32u8));
                assert(pre_lines[w] == lines.subrange(0, j as int)[w]);
            }
            if !ok {
                assert(pre_lines[j as int] == line);
            }
            if has_bad_row(pre_lines) {
                let w = choose|w: int| 0 <= w < j + 1 && !row_ok(split(#[trigger] pre_lines[w], 32u8));
                if w < j {
                    assert(pre_lines[w] == lines.subrange(0, j as int)[w]);
                }
            }
        }
        j = j + 1;
    }
    assert(lines.subrange(0, nlines as int) =~= lines);
    Level { bricks, bad_rows: bad }
}

/// The token that the level text writes for cell `k`: the hit points of a
/// fresh brick, `100`, or `0` for an empty cell.
pub open spec fn cell_token(n: u32, k: int, d: CellDraw) -> Seq<u8> {
    if cell_brick(n, k, d) is Some {
        seq![49u8, 48u8, 48u8]
    } else {
        seq![48u8]
    }
}

/// The text of the first `c` cells of row `r`, each token followed by a space.
pub open spec fn row_text(n: u32, draws: Seq<CellDraw>, r: int, c: int) -> Seq<u8>
    decreases c,
{
    if c <= 0 {
        Seq::empty()
    } else {
        row_text(n, draws, r, c - 1) + cell_token(n, r * 12 + c - 1, draws[r * 12 + c - 1]) + seq![
            32u8,
        ]
    }
}

/// The text of the first `r` rows of the grid, each row ending with a newline.
pub open spec fn level_text_rows(n: u32, draws: Seq<CellDraw>, r: int) -> Seq<u8>
    decreases r,
{
    if r <= 0 {
        Seq::empty()
    } else {
        level_text_rows(n, draws, r - 1) + row_text(n, draws, r - 1, 12) + seq![10u8]
    }
}

/// The bricks of a layout, all taken as normal bricks: what a level text keeps of them.
pub open spec fn as_normal(bricks: Seq<Brick>) -> Seq<Brick> {
    bricks.map_values(|b: Brick| Brick { brick_type: BrickKind::Normal, ..b })
}

/// Writes the layout of wave `n` for `draws` as a level text: one line per
/// grid row, `100` for a brick and `0` for an empty cell, each followed by a
/// space.
pub fn level_text(n: u32, draws: &Vec<CellDraw>) -> (r: Vec<u8>)
    requires
        draws@.len() == GRID_CELLS,
    ensures
        r@ == level_text_rows(n, draws@, 12),
{
    let mut text: Vec<u8> = Vec::new();
    let mut row: usize = 0;
    while row < 12
        invariant
            row <= 12,
            draws@.len() == GRID_CELLS,
            text@ == level_text_rows(n, draws@, row as int),
        decreases 12 - row,
    {
        let ghost before = text@;
        let mut col: usize = 0;
        while col < 12
            invariant
                row < 12,
                col <= 12,
                draws@.len() == GRID_CELLS,
                text@ == before + row_text(n, draws@, row as int, col as int),
            decreases 12 - col,
        {
            let k = row * 12 + col;
            let d = draws[k];
            let ghost mid = text@;
            if row <= n as usize && d.presence < crate::config::BRICK_CHANCE {
                text.push(49u8);
                text.push(48u8);
                text.push(48u8);
            } else {
                text.push(48u8);
            }
            text.push(32u8);
            assert(k / 12 == row && k % 12 == col) by (nonlinear_arith)
                requires
                    k == row * 12 + col,
                    col < 12,
            ;
            assert(text@ =~= before + row_text(n, draws@, row as int, col + 1));
            col = col + 1;
        }
        text.push(10u8);
        assert(text@ =~= level_text_rows(n, draws@, row + 1));
        row = row + 1;
    }
    text
}

proof fn lemma_split_extend(x: Seq<u8>, y: Seq<u8>, sep: u8)
    requires
        forall|i: int| 0 <= i < y.len() ==> y[i] != sep,
    ensures
        split(x + y, sep) == split(x, sep).update(
            split(x, sep).len() - 1,
            split(x, sep).last() + y,
        ),
        split(x + y, sep).len() == split(x, sep).len(),
    decreases y.len(),
{
    lemma_split_nonempty(x, sep);
    if y.len() == 0 {
        assert(x + y =~= x);
        assert(split(x, sep).last() + y =~= split(x, sep).last());
        assert(split(x, sep).update(split(x, sep).len() - 1, split(x, sep).last()) =~= split(x, sep));
    } else {
        let y1 = y.drop_last();
        lemma_split_extend(x, y1, sep);
        assert((x + y).drop_last() =~= x + y1);
        assert((x + y).last() == y.last());
        assert(split(x, sep).last() + y =~= (split(x, sep).last() + y1).push(y.last()));
        assert(split(x + y, sep) =~= split(x, sep).update(
            split(x, sep).len() - 1,
            split(x, sep).last() + y,
        ));
    }
}

proof fn lemma_split_sep(x: Seq<u8>, sep: u8)
    ensures
        split(x.push(sep), sep) == split(x, sep).push(Seq::empty()),
{
    assert(x.push(sep).drop_last() =~= x);
}

proof fn lemma_token_shape(n: u32, k: int, d: CellDraw)
    ensures
        forall|i: int| 0 <= i < cell_token(n, k, d).len() ==> 48 <= #[trigger] cell_token(n, k, d)[i] <= 49,
        cell_token(n, k, d).len() > 0,
        token_life(cell_token(n, k, d)) == if cell_brick(n, k, d) is Some {
            Some(100int)
        } else {
            Some(0int)
        },
{
    reveal_with_fuel(digits_value, 4);
    let t = cell_token(n, k, d);
    assert(is_digits(t));
    if cell_brick(n, k, d) is Some {
        assert(t.drop_last() =~= seq![49u8, 48u8]);
        assert(t.drop_last().drop_last() =~= seq![49u8]);
        assert(t.drop_last().drop_last().drop_last() =~= Seq::<u8>::empty());
    } else {
        assert(t.drop_last() =~= Seq::<u8>::empty());
    }
}

/// The tokens of the first `c` cells of row `r`.
spec fn row_tokens(n: u32, draws: Seq<CellDraw>, r: int, c: int) -> Seq<Seq<u8>> {
    Seq::new(c as nat, |i: int| cell_token(n, r * 12 + i, draws[r * 12 + i]))
}

proof fn lemma_row_split(n: u32, draws: Seq<CellDraw>, r: int, c: int)
    requires
        0 <= c,
    ensures
        split(row_text(n, draws, r, c), 32u8) == row_tokens(n, draws, r, c).push(Seq::empty()),
        forall|i: int| 0 <= i < row_text(n, draws, r, c).len() ==> #[trigger] row_text(n, draws, r, c)[i] != 10u8 && row_text(n, draws, r, c)[i] != 13u8,
    decreases c,
{
    if c > 0 {
        lemma_row_split(n, draws, r, c - 1);
        let prev = row_text(n, draws, r, c - 1);
        let tok = cell_token(n, r * 12 + c - 1, draws[r * 12 + c - 1]);
        lemma_token_shape(n, r * 12 + c - 1, draws[r * 12 + c - 1]);
        lemma_split_extend(prev, tok, 32u8);
        assert(split(prev, 32u8).last() + tok =~= tok);
        lemma_split_sep(prev + tok, 32u8);
        assert(row_text(n, draws, r, c) =~= (prev + tok).push(32u8));
        assert(split(prev + tok, 32u8) =~= row_tokens(n, draws, r, c));
    } else {
        assert(split(Seq::<u8>::empty(), 32u8) =~= seq![Seq::<u8>::empty()]);
        assert(row_tokens(n, draws, r, 0) =~= Seq::<Seq<u8>>::empty());
    }
}

/// The first `r` rows of the grid as written.
spec fn written_rows(n: u32, draws: Seq<CellDraw>, r: int) -> Seq<Seq<u8>> {
    Seq::new(r as nat, |i: int| row_text(n, draws, i, 12))
}

proof fn lemma_lines_split(n: u32, draws: Seq<CellDraw>, r: int)
    requires
        0 <= r,
    ensures
        split(level_text_rows(n, draws, r), 10u8) == written_rows(n, draws, r).push(Seq::empty()),
    decreases r,
{
    if r > 0 {
        lemma_lines_split(n, draws, r - 1);
        let prev = level_text_rows(n, draws, r - 1);
        let row = row_text(n, draws, r - 1, 12);
        lemma_row_split(n, draws, r - 1, 12);
        lemma_split_extend(prev, row, 10u8);
        assert(split(prev, 10u8).last() + row =~= row);
        lemma_split_sep(prev + row, 10u8);
        assert(level_text_rows(n, draws, r) =~= (prev + row).push(10u8));
        assert(split(prev + row, 10u8) =~= written_rows(n, draws, r));
    } else {
        assert(split(Seq::<u8>::empty(), 10u8) =~= seq![Seq::<u8>::empty()]);
        assert(written_rows(n, draws, 0) =~= Seq::<Seq<u8>>::empty());
    }
}

proof fn lemma_row_cells(n: u32, draws: Seq<CellDraw>, r: int, c: int)
    requires
        0 <= r,
        0 <= c <= 12,
        12 * r + 12 <= draws.len(),
    ensures
        as_normal(layout(n, draws.subrange(0, 12 * r + c))) == as_normal(
            layout(n, draws.subrange(0, 12 * r)),
        ) + row_bricks(row_tokens(n, draws, r, c), r),
        row_ok(row_tokens(n, draws, r, c)),
    decreases c,
{
    if c == 0 {
        assert(row_tokens(n, draws, r, 0) =~= Seq::<Seq<u8>>::empty());
        assert(as_normal(layout(n, draws.subrange(0, 12 * r))) + Seq::<Brick>::empty() =~= as_normal(
            layout(n, draws.subrange(0, 12 * r)),
        ));
    } else {
        lemma_row_cells(n, draws, r, c - 1);
        let k = 12 * r + c - 1;
        let pre = draws.subrange(0, k + 1);
        assert(pre.drop_last() =~= draws.subrange(0, k));
        assert(pre.last() == draws[k]);
        let toks = row_tokens(n, draws, r, c);
        assert(toks.drop_last() =~= row_tokens(n, draws, r, c - 1));
        assert(toks.last() == cell_token(n, k, draws[k]));
        lemma_token_shape(n, k, draws[k]);
        assert(k % 12 == c - 1 && k / 12 == r) by (nonlinear_arith)
            requires
                k == 12 * r + c - 1,
                1 <= c <= 12,
        ;
        let base = as_normal(layout(n, draws.subrange(0, 12 * r)));
        let before = row_bricks(row_tokens(n, draws, r, c - 1), r);
        match cell_brick(n, k, draws[k]) {
            Some(b) => {
                let nb = Brick { brick_type: BrickKind::Normal, ..b };
                assert(as_normal(layout(n, pre)) =~= as_normal(layout(n, draws.subrange(0, k))).push(
                    nb,
                ));
                assert(row_bricks(toks, r) == before.push(nb));
                assert(base + before.push(nb) =~= (base + before).push(nb));
            },
            None => {
                assert(row_bricks(toks, r) == before);
            },
        }
        assert forall|i: int| 0 <= i < toks.len() implies (#[trigger] toks[i]).len() == 0
            || token_life(toks[i]).is_some() by {
            lemma_token_shape(n, 12 * r + i, draws[12 * r + i]);
        }
    }
}

proof fn lemma_rows_read(n: u32, draws: Seq<CellDraw>, r: int)
    requires
        0 <= r <= 12,
        draws.len() == GRID_CELLS,
    ensures
        level_rows(written_rows(n, draws, r).map_values(|l: Seq<u8>| trim_cr(l))) == as_normal(
            layout(n, draws.subrange(0, 12 * r)),
        ),
        !has_bad_row(written_rows(n, draws, r).map_values(|l: Seq<u8>| trim_cr(l))),
    decreases r,
{
    let lines = written_rows(n, draws, r).map_values(|l: Seq<u8>| trim_cr(l));
    if r == 0 {
        assert(lines =~= Seq::<Seq<u8>>::empty());
        assert(draws.subrange(0, 0) =~= Seq::<CellDraw>::empty());
        assert(as_normal(Seq::<Brick>::empty()) =~= Seq::<Brick>::empty());
    } else {
        lemma_rows_read(n, draws, r - 1);
        let prev = written_rows(n, draws, r - 1).map_values(|l: Seq<u8>| trim_cr(l));
        assert(lines.drop_last() =~= prev);
        let row = row_text(n, draws, r - 1, 12);
        assert(row.last() == 32u8);
        assert(trim_cr(row) == row);
        assert(lines.last() == row);
        lemma_row_split(n, draws, r - 1, 12);
        lemma_row_cells(n, draws, r - 1, 12);
        let toks = row_tokens(n, draws, r - 1, 12);
        let all = toks.push(Seq::<u8>::empty());
        assert(all.drop_last() =~= toks);
        assert(row_bricks(all, r - 1) == row_bricks(toks, r - 1));
        assert forall|i: int| 0 <= i < all.len() implies (#[trigger] all[i]).len() == 0
            || token_life(all[i]).is_some() by {
            if i < 12 {
                assert(all[i] == toks[i]);
            }
        }
        assert(12 * (r - 1) + 12 == 12 * r);
        if has_bad_row(lines) {
            let w = choose|w: int| 0 <= w < lines.len() && !row_ok(split(#[trigger] lines[w], 32u8));
            if w < r - 1 {
                assert(lines[w] == prev[w]);
            }
        }
    }
}

/// Reading back the level text of a layout gives the layout's bricks, each
/// as a normal brick with the same box and hit points, and drops no row.
pub proof fn lemma_level_round_trip(n: u32, draws: Seq<CellDraw>)
    requires
        draws.len() == GRID_CELLS,
    ensures
        level_rows(level_lines(level_text_rows(n, draws, 12))) == as_normal(layout(n, draws)),
        !has_bad_row(level_lines(level_text_rows(n, draws, 12))),
{
    let text = level_text_rows(n, draws, 12);
    lemma_lines_split(n, draws, 12);
    let p = split(text, 10u8);
    assert(p.drop_last() =~= written_rows(n, draws, 12));
    lemma_rows_read(n, draws, 12);
    assert(draws.subrange(0, 144) =~= draws);
}

} // verus!
