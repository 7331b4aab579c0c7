use floodit::{classify, Color, Game, GameEvent, Grid, Status};
use rand::{SeedableRng, XorShiftRng};

fn fixture() -> Grid {
    let mut prng = XorShiftRng::from_seed([42, 42, 42, 42]);
    let mut grid = Grid::random(&mut prng, 10, 10);
    grid.set_cell(0, 0, Color::White);
    grid
}

fn snapshot(grid: &Grid) -> Vec<Color> {
    let mut cells = Vec::new();
    for i in 0..grid.num_rows() {
        for j in 0..grid.num_cols() {
            cells.push(grid.get(i, j));
        }
    }
    cells
}

#[test]
fn classify_maps_keys_to_events() {
    assert_eq!(classify('r'), GameEvent::SelectRed);
    assert_eq!(classify('g'), GameEvent::SelectGreen);
    assert_eq!(classify('b'), GameEvent::SelectBlue);
    assert_eq!(classify('q'), GameEvent::Quit);
    assert_eq!(classify('x'), GameEvent::Ignored);
    assert_eq!(classify(' '), GameEvent::Ignored);
    assert_eq!(classify('R'), GameEvent::Ignored);
}

#[test]
fn cycling_moves_solves_the_fixture() {
    let mut game = Game::new(fixture());
    let keys = ['r', 'g', 'b'];
    let mut solved = false;
    let mut moves_made = 0;
    for turn in 0..300 {
        let status = game.handle_event(classify(keys[turn % 3]));
        moves_made += 1;
        assert_ne!(status, Status::Quit);
        if status == Status::Solved {
            solved = true;
            break;
        }
    }
    assert!(solved);
    assert!(game.grid().is_uniform());
    assert_eq!(game.history().len(), moves_made);
}

#[test]
fn quit_keeps_only_the_moves_already_made() {
    let mut game = Game::new(fixture());
    assert_eq!(game.handle_event(classify('r')), Status::Playing);
    assert_eq!(game.handle_event(classify('g')), Status::Playing);
    let before = snapshot(game.grid());
    let status = game.handle_event(classify('q'));
    assert_eq!(status, Status::Quit);
    assert_eq!(game.history().as_slice(), &[Color::Red, Color::Green]);
    assert_eq!(snapshot(game.grid()), before);
}

#[test]
fn ignored_keys_change_nothing() {
    let mut game = Game::new(fixture());
    game.handle_event(classify('r'));
    let grid_before = snapshot(game.grid());
    let history_before = game.history().clone();
    let status = game.handle_event(classify('z'));
    assert_eq!(status, Status::Playing);
    assert_eq!(snapshot(game.grid()), grid_before);
    assert_eq!(game.history().as_slice(), history_before.as_slice());
}

#[test]
fn moves_are_logged_in_order_even_when_expansion_is_a_noop() {
    let mut game = Game::new(fixture());
    game.handle_event(GameEvent::SelectRed);
    // repeating the region's current color is a no-op on the grid
    let before = snapshot(game.grid());
    game.handle_event(GameEvent::SelectRed);
    assert_eq!(snapshot(game.grid()), before);
    assert_eq!(game.history().as_slice(), &[Color::Red, Color::Red]);
}
