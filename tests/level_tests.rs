use brick_breaker::brick::{Brick, BrickKind};
use brick_breaker::level::{level_text, parse_level};
use brick_breaker::wave::{layout_bricks, random_draws, CellDraw, GRID_CELLS};

fn parse(text: &str) -> (Vec<Brick>, bool) {
    let level = parse_level(&text.as_bytes().to_vec());
    (level.bricks, level.bad_rows)
}

fn normal(col: i32, row: i32, life: i32) -> Brick {
    Brick::new(col, row, life, BrickKind::Normal)
}

#[test]
fn level_rows_give_bricks_at_token_positions() {
    let (bricks, bad) = parse("0 100 0 5 \n100 0\n");
    assert!(!bad);
    assert_eq!(bricks, vec![normal(1, 0, 100), normal(3, 0, 5), normal(0, 1, 100)]);
    let b = &bricks[0];
    assert_eq!((b.rect.x, b.rect.y, b.life), (141, 151, 100));
}

#[test]
fn level_empty_text_has_no_bricks() {
    let (bricks, bad) = parse("");
    assert!(bricks.is_empty());
    assert!(!bad);
    let (bricks, bad) = parse("\n\n0 0 0\n");
    assert!(bricks.is_empty());
    assert!(!bad);
}

#[test]
fn level_bad_row_is_dropped_and_reported() {
    let (bricks, bad) = parse("7 7\n1 x 1\n0 0 9");
    assert!(bad);
    assert_eq!(bricks, vec![normal(0, 0, 7), normal(1, 0, 7), normal(2, 2, 9)]);
    let (_, bad) = parse("-3\n");
    assert!(bad);
    let (_, bad) = parse("+\n");
    assert!(bad);
}

#[test]
fn level_numbers_follow_unsigned_parsing() {
    let (bricks, bad) = parse("+7 2147483647");
    assert!(!bad);
    assert_eq!(bricks, vec![normal(0, 0, 7), normal(1, 0, i32::MAX)]);
    let (bricks, bad) = parse("2147483648\n4294967296\n3");
    assert!(bad);
    assert_eq!(bricks, vec![normal(0, 2, 3)]);
}

#[test]
fn level_separators() {
    let (bricks, bad) = parse("5  6\r\n1\r\n");
    assert!(!bad);
    assert_eq!(bricks, vec![normal(0, 0, 5), normal(2, 0, 6), normal(0, 1, 1)]);
}

#[test]
fn level_text_writes_rows_of_tokens() {
    let mut draws = vec![CellDraw { presence: 99, special: 0, kind: 0 }; GRID_CELLS];
    draws[1].presence = 0;
    draws[13].presence = 5;
    draws[30].presence = 0;
    let text = String::from_utf8(level_text(1, &draws)).unwrap();
    let lines: Vec<&str> = text.lines().collect();
    assert_eq!(lines.len(), 12);
    assert_eq!(lines[0], "0 100 0 0 0 0 0 0 0 0 0 0 ");
    assert_eq!(lines[1], "0 100 0 0 0 0 0 0 0 0 0 0 ");
    assert_eq!(lines[2], "0 0 0 0 0 0 0 0 0 0 0 0 ");
    assert!(text.ends_with('\n'));
}

#[test]
fn level_text_reads_back_as_layout() {
    for n in [0u32, 1, 5, 11] {
        let draws = random_draws();
        let level = parse_level(&level_text(n, &draws));
        assert!(!level.bad_rows);
        let expected: Vec<Brick> = layout_bricks(n, &draws)
            .into_iter()
            .map(|b| Brick { brick_type: BrickKind::Normal, ..b })
            .collect();
        assert_eq!(level.bricks.len(), expected.len());
        for (a, b) in level.bricks.iter().zip(expected.iter()) {
            assert_eq!((a.rect, a.life, a.brick_type), (b.rect, b.life, b.brick_type));
        }
    }
}
