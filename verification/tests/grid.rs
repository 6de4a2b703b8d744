use life_collatz::grid::GameOfLife;
use life_collatz::rng::SimpleRng;

#[test]
fn test_new_grid_all_dead() {
    let game = GameOfLife::new(3, 2);
    assert_eq!(game.render(), vec![0, 0, 0, 0, 0, 0]);
}

#[test]
fn test_degenerate_grid() {
    let mut game = GameOfLife::new(0, 0);
    assert_eq!(game.render(), Vec::<u8>::new());
    game.tick();
    game.set_cell(0, 0, true);
    game.clear();
    assert_eq!(game.render(), Vec::<u8>::new());
}

#[test]
fn test_set_cell_and_render_single_cell() {
    let mut game = GameOfLife::new(3, 3);
    game.set_cell(1, 1, true);
    assert_eq!(game.render(), vec![0, 0, 0, 0, 1, 0, 0, 0, 0]);
}

#[test]
fn test_set_cell_out_of_bounds_is_ignored() {
    let mut game = GameOfLife::new(3, 3);
    game.set_cell(1, 1, true);
    let before = game.render();
    // Coordinates exactly equal to the width or height are out of bounds.
    game.set_cell(3, 1, true);
    game.set_cell(1, 3, true);
    game.set_cell(usize::MAX, usize::MAX, true);
    assert_eq!(game.render(), before);
}

#[test]
fn test_clear_kills_everything() {
    let mut game = GameOfLife::new(2, 2);
    game.set_cell(0, 0, true);
    game.set_cell(1, 1, true);
    game.clear();
    assert_eq!(game.render(), vec![0, 0, 0, 0]);
}

#[test]
fn test_blinker_oscillates_with_period_two() {
    let mut game = GameOfLife::new(3, 3);
    game.load_pattern("OOO", 0, 1);
    assert_eq!(game.render(), vec![0, 0, 0, 1, 1, 1, 0, 0, 0]);
    game.tick();
    assert_eq!(game.render(), vec![0, 1, 0, 0, 1, 0, 0, 1, 0]);
    game.tick();
    assert_eq!(game.render(), vec![0, 0, 0, 1, 1, 1, 0, 0, 0]);
}

#[test]
fn test_block_is_a_still_life() {
    let mut game = GameOfLife::new(4, 4);
    game.load_pattern("OO\nOO", 1, 1);
    let before = game.render();
    game.tick();
    assert_eq!(game.render(), before);
}

#[test]
fn test_lonely_cell_dies() {
    let mut game = GameOfLife::new(3, 3);
    game.set_cell(1, 1, true);
    game.tick();
    assert_eq!(game.render(), vec![0, 0, 0, 0, 0, 0, 0, 0, 0]);
}

#[test]
fn test_load_pattern_markers_and_dead_chars() {
    let mut game = GameOfLife::new(4, 1);
    game.load_pattern("O1*.", 0, 0);
    assert_eq!(game.render(), vec![1, 1, 1, 0]);
}

#[test]
fn test_load_pattern_out_of_bounds_cells_skipped() {
    let mut game = GameOfLife::new(2, 2);
    game.load_pattern("OO\nOO", 1, 1);
    assert_eq!(game.render(), vec![0, 0, 0, 1]);
}

#[test]
fn test_load_pattern_overlay_sets_dead_cells_too() {
    let mut game = GameOfLife::new(3, 3);
    game.load_pattern("OOO", 0, 0);
    assert_eq!(game.render(), vec![1, 1, 1, 0, 0, 0, 0, 0, 0]);
    // The second template covers the same row; its dead cells overwrite
    // cells the first load left alive.
    game.load_pattern(".O.", 0, 0);
    assert_eq!(game.render(), vec![0, 1, 0, 0, 0, 0, 0, 0, 0]);
}

#[test]
fn test_load_pattern_blank_interior_line_keeps_row_position() {
    let mut game = GameOfLife::new(1, 3);
    game.load_pattern("O\n\nO", 0, 0);
    // The blank middle line occupies a row but covers no cells.
    assert_eq!(game.render(), vec![1, 0, 1]);
}

#[test]
fn test_randomize_is_reproducible_from_the_seed() {
    let mut game = GameOfLife::new(2, 2);
    let mut rng = SimpleRng::new(7);
    game.randomize(&mut rng);

    let mut reference = SimpleRng::new(7);
    let mut expected: Vec<u8> = Vec::new();
    for _ in 0..4 {
        let draw = reference.next();
        expected.push(if draw % 1000 < 300 { 1 } else { 0 });
    }
    assert_eq!(game.render(), expected);
    // Both generators were advanced in lockstep.
    assert_eq!(rng.next(), reference.next());
}

#[test]
fn test_randomize_overwrites_previous_state() {
    let mut game = GameOfLife::new(4, 4);
    for x in 0..4 {
        for y in 0..4 {
            game.set_cell(x, y, true);
        }
    }
    let mut rng = SimpleRng::new(1);
    game.randomize(&mut rng);
    let cells = game.render();
    let mut reference = SimpleRng::new(1);
    for k in 0..16 {
        let draw = reference.next();
        let expected = if draw % 1000 < 300 { 1 } else { 0 };
        assert_eq!(cells[k], expected);
    }
}
