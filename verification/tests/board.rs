use minesweeper::mine::{CellValue, Minesweeper};

fn count_bombs(b: &Minesweeper) -> u32 {
    let mut n = 0;
    for y in 0..b.height() {
        for x in 0..b.width() {
            if matches!(*b.get_cell(x, y).value(), CellValue::Bomb) {
                n += 1;
            }
        }
    }
    n
}

fn visible_map(b: &Minesweeper) -> Vec<bool> {
    let mut v = Vec::new();
    for y in 0..b.height() {
        for x in 0..b.width() {
            v.push(b.get_cell(x, y).visible());
        }
    }
    v
}

#[test]
fn dimensions_are_kept() {
    let b = Minesweeper::new(12, 5, 10);
    assert_eq!(b.width(), 12);
    assert_eq!(b.height(), 5);
}

#[test]
fn bomb_count_matches_request() {
    for bombs in [0u32, 1, 5, 15] {
        let b = Minesweeper::new(4, 4, bombs);
        assert_eq!(count_bombs(&b), bombs);
    }
    let b = Minesweeper::new(12, 5, 10);
    assert_eq!(count_bombs(&b), 10);
}

#[test]
fn fresh_board_is_hidden_and_unflagged() {
    let b = Minesweeper::new(6, 3, 4);
    for y in 0..3 {
        for x in 0..6 {
            assert!(!b.get_cell(x, y).visible());
            assert!(!b.get_cell(x, y).has_flag());
        }
    }
}

#[test]
fn numbers_count_bomb_neighbors() {
    let b = Minesweeper::new(5, 4, 7);
    for y in 0..4usize {
        for x in 0..5usize {
            if let CellValue::Num(n) = *b.get_cell(x, y).value() {
                let mut c = 0;
                for dy in -1i32..=1 {
                    for dx in -1i32..=1 {
                        if dx == 0 && dy == 0 {
                            continue;
                        }
                        let nx = x as i32 + dx;
                        let ny = y as i32 + dy;
                        if nx >= 0 && ny >= 0 && (nx as usize) < 5 && (ny as usize) < 4 {
                            if matches!(
                                *b.get_cell(nx as usize, ny as usize).value(),
                                CellValue::Bomb
                            ) {
                                c += 1;
                            }
                        }
                    }
                }
                assert_eq!(n, c);
            }
        }
    }
}

#[test]
fn reveal_twice_leaves_same_visible_set() {
    let mut b = Minesweeper::new(3, 3, 0);
    b.make_cell_visible(0, 0);
    let once = visible_map(&b);
    b.make_cell_visible(0, 0);
    assert_eq!(visible_map(&b), once);

    let mut b = Minesweeper::new(4, 4, 3);
    b.make_cell_visible(2, 1);
    let once = visible_map(&b);
    b.make_cell_visible(2, 1);
    assert_eq!(visible_map(&b), once);
}

#[test]
fn zero_board_floods_everywhere() {
    let mut b = Minesweeper::new(3, 3, 0);
    for y in 0..3 {
        for x in 0..3 {
            assert!(matches!(*b.get_cell(x, y).value(), CellValue::Num(0)));
        }
    }
    b.make_cell_visible(1, 1);
    for y in 0..3 {
        for x in 0..3 {
            assert!(b.get_cell(x, y).visible());
        }
    }
}

#[test]
fn crowded_board_reveals_single_cell() {
    let mut b = Minesweeper::new(3, 3, 8);
    let mut open = None;
    for y in 0..3usize {
        for x in 0..3usize {
            if let CellValue::Num(n) = *b.get_cell(x, y).value() {
                assert!(open.is_none());
                // Every in-bounds neighbor holds a bomb: 8 for the center,
                // 5 for an edge cell, 3 for a corner.
                let in_bounds_neighbors = match (x, y) {
                    (1, 1) => 8,
                    (0, 0) | (2, 0) | (0, 2) | (2, 2) => 3,
                    _ => 5,
                };
                assert_eq!(n, in_bounds_neighbors);
                open = Some((x, y));
            }
        }
    }
    let (ox, oy) = open.expect("one cell holds no bomb");
    b.make_cell_visible(ox, oy);
    for y in 0..3 {
        for x in 0..3 {
            assert_eq!(b.get_cell(x, y).visible(), (x, y) == (ox, oy));
        }
    }
}

#[test]
fn two_cell_board_numbers_its_free_cell() {
    let b = Minesweeper::new(1, 2, 1);
    let top = *b.get_cell(0, 0).value();
    let bottom = *b.get_cell(0, 1).value();
    match (top, bottom) {
        (CellValue::Bomb, CellValue::Num(n)) => assert_eq!(n, 1),
        (CellValue::Num(n), CellValue::Bomb) => assert_eq!(n, 1),
        _ => panic!("exactly one of the two cells must hold the bomb"),
    }
}

#[test]
fn nonzero_cell_does_not_flood() {
    let mut b = Minesweeper::new(1, 2, 1);
    let free_y = if matches!(*b.get_cell(0, 0).value(), CellValue::Bomb) { 1 } else { 0 };
    b.make_cell_visible(0, free_y);
    assert!(b.get_cell(0, free_y).visible());
    assert!(!b.get_cell(0, 1 - free_y).visible());
}

#[test]
fn reveal_clears_the_flag() {
    let mut b = Minesweeper::new(2, 2, 0);
    b.toggle_flag_in_cell(0, 0);
    assert!(b.get_cell(0, 0).has_flag());
    b.make_cell_visible(0, 0);
    assert!(b.get_cell(0, 0).visible());
    assert!(!b.get_cell(0, 0).has_flag());
}

#[test]
fn flood_clears_flags_on_its_way() {
    let mut b = Minesweeper::new(2, 2, 0);
    b.toggle_flag_in_cell(1, 1);
    b.make_cell_visible(0, 0);
    for y in 0..2 {
        for x in 0..2 {
            assert!(b.get_cell(x, y).visible());
            assert!(!b.get_cell(x, y).has_flag());
        }
    }
}

#[test]
fn toggle_flag_flips_only_hidden_cells() {
    let mut b = Minesweeper::new(2, 1, 1);
    assert!(!b.get_cell(0, 0).has_flag());
    b.toggle_flag_in_cell(0, 0);
    assert!(b.get_cell(0, 0).has_flag());
    b.toggle_flag_in_cell(0, 0);
    assert!(!b.get_cell(0, 0).has_flag());
}

#[test]
fn toggle_flag_ignores_revealed_cells() {
    let mut b = Minesweeper::new(3, 3, 0);
    b.make_cell_visible(1, 1);
    assert!(b.get_cell(1, 1).visible());
    b.toggle_flag_in_cell(1, 1);
    assert!(!b.get_cell(1, 1).has_flag());
    assert!(b.get_cell(1, 1).visible());
}

#[test]
fn reveal_all_shows_every_cell() {
    let mut b = Minesweeper::new(3, 2, 2);
    b.toggle_flag_in_cell(0, 0);
    b.make_all_cells_visible();
    for y in 0..2 {
        for x in 0..3 {
            assert!(b.get_cell(x, y).visible());
            assert!(!b.get_cell(x, y).has_flag());
        }
    }
}

#[test]
fn single_free_cell_board() {
    let mut b = Minesweeper::new(1, 1, 0);
    assert!(matches!(*b.get_cell(0, 0).value(), CellValue::Num(0)));
    b.make_cell_visible(0, 0);
    assert!(b.get_cell(0, 0).visible());
}
