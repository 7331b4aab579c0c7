use floodit::{Color, Grid};
use rand::{SeedableRng, XorShiftRng};

/// The reference 10x10 board: generated from the fixed seed, then the anchor
/// is forced to the seed marker before the first move.
fn fixture() -> Grid {
    let mut prng = XorShiftRng::from_seed([42, 42, 42, 42]);
    let mut grid = Grid::random(&mut prng, 10, 10);
    grid.set_cell(0, 0, Color::White);
    grid
}

fn snapshot(grid: &Grid) -> Vec<Color> {
    let mut cells = Vec::new();
    for i in 0..grid.num_rows() {
        for j in 0..grid.num_cols() {
            cells.push(grid.get(i, j));
        }
    }
    cells
}

/// Builds a grid of the given shape and paints every cell from `rows`.
fn paint(rows: &[&[Color]]) -> Grid {
    let mut prng = XorShiftRng::from_seed([1, 2, 3, 4]);
    let mut grid = Grid::random(&mut prng, rows.len(), rows[0].len());
    for (i, row) in rows.iter().enumerate() {
        for (j, &color) in row.iter().enumerate() {
            grid.set_cell(i, j, color);
        }
    }
    grid
}

#[test]
fn deterministic_generation_from_fixed_seed() {
    let a = fixture();
    let b = fixture();
    assert_eq!(a.num_rows(), 10);
    assert_eq!(a.num_cols(), 10);
    assert_eq!(snapshot(&a), snapshot(&b));
    assert_eq!(a.get(0, 0), Color::White);
}

#[test]
fn random_draws_only_playable_colors() {
    let mut prng = XorShiftRng::from_seed([42, 42, 42, 42]);
    let grid = Grid::random(&mut prng, 10, 10);
    for i in 0..10 {
        for j in 0..10 {
            let c = grid.get(i, j);
            assert!(c.is_playable());
            assert!(c != Color::White);
        }
    }
}

#[test]
fn is_uniform_checks_every_cell_against_anchor() {
    let mut grid = paint(&[
        &[Color::Red, Color::Red],
        &[Color::Red, Color::Red],
    ]);
    assert!(grid.is_uniform());
    grid.set_cell(1, 1, Color::Green);
    assert!(!grid.is_uniform());
    grid.set_cell(1, 1, Color::Red);
    assert!(grid.is_uniform());
}

#[test]
fn one_cell_grid_is_uniform() {
    let mut prng = XorShiftRng::from_seed([42, 42, 42, 42]);
    let grid = Grid::random(&mut prng, 1, 1);
    assert!(grid.is_uniform());
}

#[test]
fn expand_to_current_anchor_color_is_noop() {
    let mut grid = fixture();
    let before = snapshot(&grid);
    grid.expand(Color::White);
    assert_eq!(snapshot(&grid), before);
}

#[test]
fn expand_is_idempotent() {
    let mut grid = fixture();
    grid.expand(Color::Red);
    let after_first = snapshot(&grid);
    grid.expand(Color::Red);
    assert_eq!(snapshot(&grid), after_first);
}

#[test]
fn expand_converts_exactly_the_anchor_region() {
    let r = Color::Red;
    let g = Color::Green;
    let b = Color::Blue;
    let mut grid = paint(&[
        &[r, r, g],
        &[g, g, g],
        &[r, g, r],
    ]);
    grid.expand(b);
    let expected = [
        [b, b, g],
        [g, g, g],
        [r, g, r],
    ];
    for i in 0..3 {
        for j in 0..3 {
            assert_eq!(grid.get(i, j), expected[i][j]);
        }
    }
}

#[test]
fn expand_merges_through_newly_joined_cells() {
    let r = Color::Red;
    let g = Color::Green;
    let b = Color::Blue;
    let mut grid = paint(&[
        &[r, g, r],
        &[b, b, b],
        &[r, g, r],
    ]);
    // the middle row is cut off from the anchor until a merge reaches it
    grid.expand(g);
    assert_eq!(grid.get(0, 0), g);
    assert_eq!(grid.get(0, 1), g);
    assert_eq!(grid.get(1, 0), b);
    grid.expand(b);
    // the merged {(0,0), (0,1)} region turns blue and joins the middle row
    assert_eq!(grid.get(0, 0), b);
    assert_eq!(grid.get(0, 1), b);
    assert_eq!(grid.get(1, 0), b);
    assert_eq!(grid.get(1, 2), b);
    // disconnected cells keep their colors
    assert_eq!(grid.get(0, 2), r);
    assert_eq!(grid.get(2, 0), r);
    assert_eq!(grid.get(2, 1), g);
    assert_eq!(grid.get(2, 2), r);
}

fn region_count(grid: &Grid) -> usize {
    let rows = grid.num_rows();
    let cols = grid.num_cols();
    let mut seen = vec![vec![false; cols]; rows];
    let mut count = 0;
    for si in 0..rows {
        for sj in 0..cols {
            if seen[si][sj] {
                continue;
            }
            count += 1;
            let color = grid.get(si, sj);
            seen[si][sj] = true;
            let mut stack = vec![(si, sj)];
            while let Some((i, j)) = stack.pop() {
                let mut neighbors = Vec::new();
                if i > 0 {
                    neighbors.push((i - 1, j));
                }
                if i + 1 < rows {
                    neighbors.push((i + 1, j));
                }
                if j > 0 {
                    neighbors.push((i, j - 1));
                }
                if j + 1 < cols {
                    neighbors.push((i, j + 1));
                }
                for (a, c) in neighbors {
                    if !seen[a][c] && grid.get(a, c) == color {
                        seen[a][c] = true;
                        stack.push((a, c));
                    }
                }
            }
        }
    }
    count
}

#[test]
fn expand_never_increases_region_count() {
    let mut grid = fixture();
    let moves = [Color::Red, Color::Green, Color::Blue];
    let mut regions = region_count(&grid);
    for turn in 0..40 {
        grid.expand(moves[turn % 3]);
        let now = region_count(&grid);
        assert!(now <= regions);
        regions = now;
        if grid.is_uniform() {
            break;
        }
    }
}
