use game_of_life::{GridError, Universe};

const ALIVE: &str = " \u{25fc}";
const DEAD: &str = " \u{25fb}";

fn expected_render(height: u32, width: u32, live: &[(u32, u32)]) -> String {
    let mut out = String::new();
    for r in 0..height {
        for c in 0..width {
            if live.contains(&(r, c)) {
                out.push_str(ALIVE);
            } else {
                out.push_str(DEAD);
            }
        }
        out.push('\n');
    }
    out
}

#[test]
fn fresh_grid_renders_all_dead() {
    let g = Universe::new(4, 3).unwrap();
    assert_eq!(g.render(), expected_render(3, 4, &[]));
}

#[test]
fn fresh_one_by_one() {
    let g = Universe::new(1, 1).unwrap();
    assert_eq!(g.render(), format!("{}\n", DEAD));
}

#[test]
fn new_rejects_zero_dimensions() {
    assert_eq!(Universe::new(0, 5).unwrap_err(), GridError::InvalidDimensions);
    assert_eq!(Universe::new(5, 0).unwrap_err(), GridError::InvalidDimensions);
    assert_eq!(Universe::new(0, 0).unwrap_err(), GridError::InvalidDimensions);
}

#[test]
fn set_cells_reflects_exactly_the_requested_coordinates() {
    let mut g = Universe::new(3, 3).unwrap();
    g.set_cells(&[(0, 1), (2, 2)]);
    assert_eq!(g.render(), expected_render(3, 3, &[(0, 1), (2, 2)]));
    assert_eq!(g.get_row_as_string(0).unwrap(), format!("{}{}{}", DEAD, ALIVE, DEAD));
    assert_eq!(g.get_row_as_string(1).unwrap(), format!("{}{}{}", DEAD, DEAD, DEAD));
    assert_eq!(g.get_row_as_string(2).unwrap(), format!("{}{}{}", DEAD, DEAD, ALIVE));
}

#[test]
fn set_cells_twice_accumulates() {
    let mut g = Universe::new(2, 2).unwrap();
    g.set_cells(&[(0, 0)]);
    g.set_cells(&[(1, 1)]);
    assert_eq!(g.render(), expected_render(2, 2, &[(0, 0), (1, 1)]));
}

#[test]
fn block_is_a_still_life() {
    let block = [(1, 1), (1, 2), (2, 1), (2, 2)];
    let mut g = Universe::new(4, 4).unwrap();
    g.set_cells(&block);
    let before = g.render();
    for _ in 0..5 {
        g.tick();
        assert_eq!(g.render(), before);
    }
}

#[test]
fn block_on_three_by_three_is_a_still_life() {
    let block = [(0, 0), (0, 1), (1, 0), (1, 1)];
    let mut g = Universe::new(3, 3).unwrap();
    g.set_cells(&block);
    let before = g.render();
    g.tick();
    assert_eq!(g.render(), before);
}

#[test]
fn block_filling_a_two_wide_torus_dies() {
    // On a 2-wide grid the block's columns double-count each other through
    // the wraparound, so every live cell sees more than 3 neighbors.
    let mut g = Universe::new(2, 2).unwrap();
    g.set_cells(&[(0, 0), (0, 1), (1, 0), (1, 1)]);
    g.tick();
    assert_eq!(g.render(), expected_render(2, 2, &[]));
}

#[test]
fn blinker_oscillates_with_period_two() {
    let horizontal = [(2, 1), (2, 2), (2, 3)];
    let vertical = [(1, 2), (2, 2), (3, 2)];
    let mut g = Universe::new(5, 5).unwrap();
    g.set_cells(&horizontal);
    g.tick();
    assert_eq!(g.render(), expected_render(5, 5, &vertical));
    g.tick();
    assert_eq!(g.render(), expected_render(5, 5, &horizontal));
}

#[test]
fn corner_cells_are_adjacent_through_the_wraparound() {
    // All four corners of a 3x3 torus are mutual neighbors: each live
    // corner sees exactly the other three, so the pattern is a still life.
    // Without wraparound each corner would starve and die.
    let corners = [(0, 0), (0, 2), (2, 0), (2, 2)];
    let mut g = Universe::new(3, 3).unwrap();
    g.set_cells(&corners);
    g.tick();
    assert_eq!(g.render(), expected_render(3, 3, &corners));
}

#[test]
fn single_cell_dies_even_on_one_by_one() {
    // On a 1x1 torus every neighbor coordinate wraps back to the cell
    // itself, giving a live count of 8: the cell dies.
    let mut g = Universe::new(1, 1).unwrap();
    g.set_cells(&[(0, 0)]);
    g.tick();
    assert_eq!(g.render(), format!("{}\n", DEAD));
}

#[test]
fn get_row_out_of_bounds_is_rejected() {
    let g = Universe::new(4, 2).unwrap();
    assert_eq!(g.get_row_as_string(2).unwrap_err(), GridError::RowOutOfBounds);
    assert_eq!(g.get_row_as_string(100).unwrap_err(), GridError::RowOutOfBounds);
}

#[test]
fn get_row_matches_the_render_line() {
    let mut g = Universe::new(4, 2).unwrap();
    g.set_cells(&[(1, 0), (1, 3), (0, 2)]);
    let rendered = g.render();
    let lines: Vec<&str> = rendered.lines().collect();
    assert_eq!(lines.len(), 2);
    assert_eq!(g.get_row_as_string(0).unwrap(), lines[0]);
    assert_eq!(g.get_row_as_string(1).unwrap(), lines[1]);
}
