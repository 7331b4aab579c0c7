use vstd::prelude::*;

use crate::color::Color;
use crate::grid::{expand_spec, Grid};

verus! {

/// What one key press means to the game.
#[derive(Clone, Copy, PartialEq, Eq, Structural, Debug)]
pub enum GameEvent {
    SelectRed,
    SelectGreen,
    SelectBlue,
    Quit,
    Ignored,
}

/// The classification a key press receives: 'r', 'g' and 'b' select a
/// color, 'q' quits, and every other key is ignored.
pub open spec fn spec_classify(c: char) -> GameEvent {
    if c == 'r' {
        GameEvent::SelectRed
    } else if c == 'g' {
        GameEvent::SelectGreen
    } else if c == 'b' {
        GameEvent::SelectBlue
    } else if c == 'q' {
        GameEvent::Quit
    } else {
        GameEvent::Ignored
    }
}

/// Classifies one key press into the event it stands for.
pub fn classify(c: char) -> (e: GameEvent)
    ensures
        e == spec_classify(c),
{
    if c == 'r' {
        GameEvent::SelectRed
    } else if c == 'g' {
        GameEvent::SelectGreen
    } else if c == 'b' {
        GameEvent::SelectBlue
    } else if c == 'q' {
        GameEvent::Quit
    } else {
        GameEvent::Ignored
    }
}

/// The color a selection event asks for, if it asks for one.
pub open spec fn event_color(e: GameEvent) -> Option<Color> {
    match e {
        GameEvent::SelectRed => Some(Color::Red),
        GameEvent::SelectGreen => Some(Color::Green),
        GameEvent::SelectBlue => Some(Color::Blue),
        GameEvent::Quit => None,
        GameEvent::Ignored => None,
    }
}

/// Where the session stands after an event was handled.
#[derive(Clone, Copy, PartialEq, Eq, Structural, Debug)]
pub enum Status {
    Playing,
    Solved,
    Quit,
}

/// One game session: the live grid and the ordered log of accepted moves.
pub struct Game {
    grid: Grid,
    history: Vec<Color>,
}

impl Game {
    /// The live grid.
    pub closed spec fn spec_grid(self) -> Grid {
        self.grid
    }

    /// The accepted moves so far, oldest first.
    pub closed spec fn spec_history(self) -> Seq<Color> {
        self.history@
    }

    /// A session is well-formed when its grid is.
    pub open spec fn wf(self) -> bool {
        self.spec_grid().wf()
    }

    /// Starts a session on `grid` with an empty move history.
    pub fn new(grid: Grid) -> (g: Game)
        requires
            grid.wf(),
        ensures
            g.wf(),
            g.spec_grid() == grid,
            g.spec_history() == Seq::<Color>::empty(),
    {
        Game { grid, history: Vec::new() }
    }

    /// The live grid.
    pub fn grid(&self) -> (r: &Grid)
        ensures
            r == self.spec_grid(),
    {
        &self.grid
    }

    /// The accepted moves, in the order they were made.
    pub fn history(&self) -> (r: &Vec<Color>)
        ensures
            r@ == self.spec_history(),
    {
        &self.history
    }

    /// Accepts `color` as a move: logs it, expands the anchor's region
    /// toward it, and reports whether the grid has become uniform.
    fn apply_move(&mut self, color: Color) -> (s: Status)
        requires
            old(self).wf(),
        ensures
            final(self).wf(),
            final(self).spec_grid().rows() == old(self).spec_grid().rows(),
            final(self).spec_grid().cols() == old(self).spec_grid().cols(),
            final(self).spec_history() == old(self).spec_history().push(color),
            final(self).spec_grid().cells() == expand_spec(
                old(self).spec_grid().cells(),
                old(self).spec_grid().rows(),
                old(self).spec_grid().cols(),
                color,
            ),
            s == (if final(self).spec_grid().spec_uniform() {
                Status::Solved
            } else {
                Status::Playing
            }),
    {
        self.history.push(color);
        self.grid.expand(color);
        if self.grid.is_uniform() {
            Status::Solved
        } else {
            Status::Playing
        }
    }

    /// Plays one event. A color selection appends that color to the move
    /// history, expands the anchor's region toward it, and ends the session
    /// exactly when the grid has become uniform; a quit ends the session
    /// with the grid and the history untouched; an ignored key changes
    /// nothing and play goes on.
    pub fn handle_event(&mut self, event: GameEvent) -> (s: Status)
        requires
            old(self).wf(),
        ensures
            final(self).wf(),
            final(self).spec_grid().rows() == old(self).spec_grid().rows(),
            final(self).spec_grid().cols() == old(self).spec_grid().cols(),
            event == GameEvent::Quit ==> s == Status::Quit && *final(self) == *old(self),
            event == GameEvent::Ignored ==> s == Status::Playing && *final(self) == *old(self),
            event_color(event) matches Some(color) ==> {
                &&& final(self).spec_history() == old(self).spec_history().push(color)
                &&& final(self).spec_grid().cells() == expand_spec(
                    old(self).spec_grid().cells(),
                    old(self).spec_grid().rows(),
                    old(self).spec_grid().cols(),
                    color,
                )
                &&& s == (if final(self).spec_grid().spec_uniform() {
                    Status::Solved
                } else {
                    Status::Playing
                })
            },
    {
        match event {
            GameEvent::SelectRed => self.apply_move(Color::Red),
            GameEvent::SelectGreen => self.apply_move(Color::Green),
            GameEvent::SelectBlue => self.apply_move(Color::Blue),
            GameEvent::Quit => Status::Quit,
            GameEvent::Ignored => Status::Playing,
        }
    }
}

} // verus!
