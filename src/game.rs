//! The game: a board, a cursor and a status, driven one key at a time.

use crate::board::{
    fresh_board, generate_error, reveal_effect, Board, BoardError, BoardModel, Cell,
    CellState, RevealOutcome,
};
use crate::cursor::{step_back, step_forward, wrap_back, wrap_forward};
use vstd::prelude::*;

verus! {

/// Where a game stands. Every state but `Running` is final.
#[derive(Clone, Copy, PartialEq, Eq, Structural, Debug)]
pub enum Status {
    Running,
    Won,
    Lost,
    Quit,
}

/// One input event.
#[derive(Clone, Copy, PartialEq, Eq, Structural, Debug)]
pub enum Key {
    Up,
    Down,
    Left,
    Right,
    Reveal,
    Flag,
    Quit,
    /// Anything else; it changes nothing.
    Other,
}

/// How a cell is drawn.
#[derive(Clone, Copy, PartialEq, Eq, Structural, Debug)]
pub enum Glyph {
    Hidden,
    Flagged,
    Mine,
    /// A revealed safe cell with no mine around it.
    Empty,
    /// A revealed safe cell with this many mines around it.
    Number(u8),
}

/// A game in progress.
pub struct Game {
    board: Board,
    x: u8,
    y: u8,
    status: Status,
}

pub struct GameModel {
    pub board: BoardModel,
    pub x: int,
    pub y: int,
    pub status: Status,
}

impl View for Game {
    type V = GameModel;

    closed spec fn view(&self) -> GameModel {
        GameModel { board: self.board@, x: self.x as int, y: self.y as int, status: self.status }
    }
}

impl GameModel {
    /// The board is well formed and the cursor lies on it.
    pub open spec fn wf(self) -> bool {
        &&& self.board.wf()
        &&& 0 <= self.x < self.board.width
        &&& 0 <= self.y < self.board.width
    }

    /// The game after the reveal key: the board changes as revealing the
    /// cursor's cell says; a mine loses the game, and a safe cell that leaves
    /// no safe cell hidden wins it.
    pub open spec fn after_reveal(self, next: GameModel) -> bool {
        let c = self.board.cell(self.x, self.y);
        &&& reveal_effect(self.board, next.board, self.x, self.y)
        &&& next.x == self.x
        &&& next.y == self.y
        &&& next.status == if c.state != CellState::Hidden {
            Status::Running
        } else if c.is_mine {
            Status::Lost
        } else if next.board.all_safe_revealed() {
            Status::Won
        } else {
            Status::Running
        }
    }

    /// The game after `key`, for a key other than the reveal key.
    pub open spec fn after_key(self, key: Key) -> GameModel {
        match key {
            Key::Up => GameModel { y: step_back(self.y, self.board.width), ..self },
            Key::Down => GameModel { y: step_forward(self.y, self.board.width), ..self },
            Key::Left => GameModel { x: step_back(self.x, self.board.width), ..self },
            Key::Right => GameModel { x: step_forward(self.x, self.board.width), ..self },
            Key::Flag => GameModel { board: self.board.with_flag_toggled(self.x, self.y), ..self },
            Key::Quit => GameModel { status: Status::Quit, ..self },
            _ => self,
        }
    }
}

/// How `c` is drawn.
pub open spec fn glyph_of(c: Cell) -> Glyph {
    match c.state {
        CellState::Hidden => Glyph::Hidden,
        CellState::Flagged => Glyph::Flagged,
        CellState::Revealed => if c.is_mine {
            Glyph::Mine
        } else if c.adjacent_mine_count == 0 {
            Glyph::Empty
        } else {
            Glyph::Number(c.adjacent_mine_count)
        },
    }
}

/// The key that a typed character stands for: `w`, `a`, `s`, `d` move,
/// space reveals, `f` flags, `q` quits.
pub open spec fn key_of_char(c: char) -> Key {
    if c == 'w' {
        Key::Up
    } else if c == 's' {
        Key::Down
    } else if c == 'a' {
        Key::Left
    } else if c == 'd' {
        Key::Right
    } else if c == ' ' {
        Key::Reveal
    } else if c == 'f' {
        Key::Flag
    } else if c == 'q' {
        Key::Quit
    } else {
        Key::Other
    }
}

/// The key that a typed character stands for.
pub fn key_from_char(c: char) -> (r: Key)
    ensures
        r == key_of_char(c),
{
    match c {
        'w' => Key::Up,
        's' => Key::Down,
        'a' => Key::Left,
        'd' => Key::Right,
        ' ' => Key::Reveal,
        'f' => Key::Flag,
        'q' => Key::Quit,
        _ => Key::Other,
    }
}

/// How a cell is drawn.
pub fn glyph(c: Cell) -> (r: Glyph)
    ensures
        r == glyph_of(c),
{
    match c.state {
        CellState::Hidden => Glyph::Hidden,
        CellState::Flagged => Glyph::Flagged,
        CellState::Revealed => {
            if c.is_mine {
                Glyph::Mine
            } else if c.adjacent_mine_count == 0 {
                Glyph::Empty
            } else {
                Glyph::Number(c.adjacent_mine_count)
            }
        },
    }
}

/// Starts a game on a new board of side `width` with `num_mines` mines placed
/// from `seed`, the cursor at (0, 0).
pub fn new_game(width: u8, num_mines: usize, seed: u64) -> (r: Result<Game, BoardError>)
    ensures
        match r {
            Ok(g) => {
                &&& fresh_board(g@.board, width as int, num_mines as int)
                &&& g@.wf()
                &&& g@.x == 0 && g@.y == 0
                &&& g@.status == Status::Running
            },
            Err(e) => generate_error(width as int, num_mines as int, e),
        },
{
    match Board::generate(width, num_mines, seed) {
        Ok(board) => Ok(Game { board, x: 0, y: 0, status: Status::Running }),
        Err(e) => Err(e),
    }
}

impl Game {
    /// Starts a game on a given board, the cursor at (0, 0).
    pub fn from_board(board: Board) -> (r: Game)
        requires
            board@.wf(),
        ensures
            r@.board == board@,
            r@.wf(),
            r@.x == 0 && r@.y == 0,
            r@.status == Status::Running,
    {
        Game { board, x: 0, y: 0, status: Status::Running }
    }

    pub fn board(&self) -> (r: &Board)
        ensures
            r@ == self@.board,
    {
        &self.board
    }

    pub fn cursor(&self) -> (r: (u8, u8))
        ensures
            r.0 == self@.x,
            r.1 == self@.y,
    {
        (self.x, self.y)
    }

    pub fn status(&self) -> (r: Status)
        ensures
            r == self@.status,
    {
        self.status
    }

    /// The cell at column `x`, row `y`.
    pub fn get_cell(&self, x: u8, y: u8) -> (r: Cell)
        requires
            self@.wf(),
            x < self@.board.width,
            y < self@.board.width,
        ensures
            r == self@.board.cell(x as int, y as int),
    {
        self.board.get_cell(x, y)
    }

    pub fn cursor_up(&mut self)
        requires
            old(self)@.wf(),
        ensures
            final(self)@ == old(self)@.after_key(Key::Up),
            final(self)@.wf(),
    {
        self.y = wrap_back(self.y, self.board.width());
    }

    pub fn cursor_down(&mut self)
        requires
            old(self)@.wf(),
        ensures
            final(self)@ == old(self)@.after_key(Key::Down),
            final(self)@.wf(),
    {
        self.y = wrap_forward(self.y, self.board.width());
    }

    pub fn cursor_left(&mut self)
        requires
            old(self)@.wf(),
        ensures
            final(self)@ == old(self)@.after_key(Key::Left),
            final(self)@.wf(),
    {
        self.x = wrap_back(self.x, self.board.width());
    }

    pub fn cursor_right(&mut self)
        requires
            old(self)@.wf(),
        ensures
            final(self)@ == old(self)@.after_key(Key::Right),
            final(self)@.wf(),
    {
        self.x = wrap_forward(self.x, self.board.width());
    }

    /// Applies one key. A finished game ignores every key.
    pub fn handle_key(&mut self, key: Key)
        requires
            old(self)@.wf(),
        ensures
            final(self)@.wf(),
            old(self)@.status != Status::Running ==> final(self)@ == old(self)@,
            old(self)@.status == Status::Running && key == Key::Reveal ==> old(self)@.after_reveal(
                final(self)@,
            ),
            old(self)@.status == Status::Running && key != Key::Reveal ==> final(self)@ == old(
                self,
            )@.after_key(key),
    {
        if self.status != Status::Running {
            return ;
        }
        match key {
            Key::Up => self.cursor_up(),
            Key::Down => self.cursor_down(),
            Key::Left => self.cursor_left(),
            Key::Right => self.cursor_right(),
            Key::Flag => self.board.toggle_flag(self.x, self.y),
            Key::Quit => self.status = Status::Quit,
            Key::Reveal => {
                let outcome = self.board.reveal_cell(self.x, self.y);
                match outcome {
                    RevealOutcome::HitMine => self.status = Status::Lost,
                    RevealOutcome::Cleared => {
                        if self.board.all_safe_revealed() {
                            self.status = Status::Won;
                        }
                    },
                    RevealOutcome::Ignored => {},
                }
            },
            Key::Other => {},
        }
    }
}

} // verus!
