//! The grid model and the board generator.
//!
//! A board of side `w` is a flat sequence of `w * w` cells; the cell at column
//! `x` and row `y` sits at index `y * w + x`.

use crate::random::{draw_below, seeded_rng};
use rand::rngs::StdRng;
use vstd::prelude::*;

verus! {

/// Visibility of one cell.
#[derive(Clone, Copy, PartialEq, Eq, Structural, Debug)]
pub enum CellState {
    Hidden,
    Revealed,
    Flagged,
}

/// One grid position.
#[derive(Clone, Copy, PartialEq, Eq, Structural, Debug)]
pub struct Cell {
    pub state: CellState,
    pub is_mine: bool,
    /// Number of mines among the neighbours; meaningful for non-mine cells.
    pub adjacent_mine_count: u8,
}

/// Why a board could not be built.
#[derive(Clone, Copy, PartialEq, Eq, Structural, Debug)]
pub enum BoardError {
    /// The side length was zero.
    ZeroWidth,
    /// More mines were asked for than the board has cells.
    TooManyMines,
    /// A mine layout did not have one entry per cell.
    LayoutSize,
}

/// A square grid of cells.
pub struct Board {
    width: u8,
    cells: Vec<Cell>,
}

/// What a board is: its side length and its cells in row-major order.
pub struct BoardModel {
    pub width: int,
    pub cells: Seq<Cell>,
}

/// What revealing a cell led to.
#[derive(Clone, Copy, PartialEq, Eq, Structural, Debug)]
pub enum RevealOutcome {
    /// The cell was flagged or already revealed; nothing changed.
    Ignored,
    /// The cell held a mine.
    HitMine,
    /// The cell was safe; it and its cascade are now revealed.
    Cleared,
}

/// The state a flag action moves a cell to: hidden and flagged swap, a
/// revealed cell stays revealed.
pub open spec fn flag_toggled(s: CellState) -> CellState {
    match s {
        CellState::Hidden => CellState::Flagged,
        CellState::Flagged => CellState::Hidden,
        CellState::Revealed => CellState::Revealed,
    }
}

impl BoardModel {
    pub open spec fn index(self, x: int, y: int) -> int {
        flat_index(self.width, x, y)
    }

    pub open spec fn cell(self, x: int, y: int) -> Cell {
        self.cells[self.index(x, y)]
    }

    /// Side length fits the coordinate type, there are `width * width` cells,
    /// and every safe cell holds the number of mines around it.
    pub open spec fn wf(self) -> bool {
        &&& 0 < self.width <= 255
        &&& self.cells.len() == self.width * self.width
        &&& forall|x: int, y: int|
            #![trigger flat_index(self.width, x, y)]
            in_grid(self.width, x, y) && !self.cells[flat_index(self.width, x, y)].is_mine
                ==> self.cells[flat_index(self.width, x, y)].adjacent_mine_count
                == adjacent_mines(self.cells, self.width, x, y)
    }

    /// Every cell without a mine has been revealed.
    pub open spec fn all_safe_revealed(self) -> bool {
        forall|i: int|
            0 <= i < self.cells.len() && !(#[trigger] self.cells[i]).is_mine ==> self.cells[i].state
                == CellState::Revealed
    }

    /// The board with the cell at (x, y) shown.
    pub open spec fn with_revealed(self, x: int, y: int) -> BoardModel {
        let c = self.cell(x, y);
        BoardModel {
            width: self.width,
            cells: self.cells.update(self.index(x, y), Cell { state: CellState::Revealed, ..c }),
        }
    }

    /// The board after a flag action on (x, y).
    pub open spec fn with_flag_toggled(self, x: int, y: int) -> BoardModel {
        let c = self.cell(x, y);
        BoardModel {
            width: self.width,
            cells: self.cells.update(
                self.index(x, y),
                Cell { state: flag_toggled(c.state), ..c },
            ),
        }
    }
}

impl View for Board {
    type V = BoardModel;

    closed spec fn view(&self) -> BoardModel {
        BoardModel { width: self.width as int, cells: self.cells@ }
    }
}

pub open spec fn in_grid(w: int, x: int, y: int) -> bool {
    0 <= x < w && 0 <= y < w
}

pub open spec fn flat_index(w: int, x: int, y: int) -> int {
    y * w + x
}

/// Whether (x, y) lies on the grid and holds a mine.
pub open spec fn mine_at(cells: Seq<Cell>, w: int, x: int, y: int) -> bool {
    in_grid(w, x, y) && cells[flat_index(w, x, y)].is_mine
}

pub open spec fn mine_bit(cells: Seq<Cell>, w: int, x: int, y: int) -> nat {
    if mine_at(cells, w, x, y) {
        1
    } else {
        0
    }
}

/// Number of mines among the up-to-eight neighbours of (x, y) on the grid.
pub open spec fn adjacent_mines(cells: Seq<Cell>, w: int, x: int, y: int) -> nat {
    mine_bit(cells, w, x - 1, y - 1) + mine_bit(cells, w, x, y - 1) + mine_bit(cells, w, x + 1, y - 1)
        + mine_bit(cells, w, x - 1, y) + mine_bit(cells, w, x + 1, y)
        + mine_bit(cells, w, x - 1, y + 1) + mine_bit(cells, w, x, y + 1) + mine_bit(
        cells,
        w,
        x + 1,
        y + 1,
    )
}

/// Number of cells of `s` that satisfy `p`.
pub open spec fn count_where(s: Seq<Cell>, p: spec_fn(Cell) -> bool) -> nat
    decreases s.len(),
{
    if s.len() == 0 {
        0
    } else {
        count_where(s.drop_last(), p) + if p(s.last()) {
            1nat
        } else {
            0nat
        }
    }
}

/// Number of mined cells.
pub open spec fn mine_total(s: Seq<Cell>) -> nat {
    count_where(s, |c: Cell| c.is_mine)
}

/// Number of cells without a mine.
pub open spec fn safe_total(s: Seq<Cell>) -> nat {
    count_where(s, |c: Cell| !c.is_mine)
}

/// Number of hidden cells.
pub open spec fn hidden_total(s: Seq<Cell>) -> nat {
    count_where(s, |c: Cell| c.state == CellState::Hidden)
}

pub open spec fn blank_cell() -> Cell {
    Cell { state: CellState::Hidden, is_mine: false, adjacent_mine_count: 0 }
}

pub proof fn lemma_count_push(s: Seq<Cell>, p: spec_fn(Cell) -> bool, c: Cell)
    ensures
        count_where(s.push(c), p) == count_where(s, p) + if p(c) {
            1nat
        } else {
            0nat
        },
{
    assert(s.push(c).drop_last() =~= s);
}

pub proof fn lemma_count_update(s: Seq<Cell>, p: spec_fn(Cell) -> bool, i: int, c: Cell)
    requires
        0 <= i < s.len(),
    ensures
        count_where(s.update(i, c), p) == count_where(s, p) - (if p(s[i]) {
            1int
        } else {
            0int
        }) + (if p(c) {
            1int
        } else {
            0int
        }),
    decreases s.len(),
{
    if i == s.len() - 1 {
        assert(s.update(i, c).drop_last() =~= s.drop_last());
    } else {
        lemma_count_update(s.drop_last(), p, i, c);
        assert(s.update(i, c).drop_last() =~= s.drop_last().update(i, c));
    }
}

/// Every cell is mined or not: the two counts add up to the number of cells.
pub proof fn lemma_mine_safe_split(s: Seq<Cell>)
    ensures
        mine_total(s) + safe_total(s) == s.len(),
    decreases s.len(),
{
    if s.len() > 0 {
        lemma_mine_safe_split(s.drop_last());
    }
}

pub proof fn lemma_flat_index_bound(w: int, x: int, y: int)
    requires
        in_grid(w, x, y),
    ensures
        0 <= flat_index(w, x, y) < w * w,
{
    assert(0 <= y * w + x < w * w) by (nonlinear_arith)
        requires
            0 <= x < w,
            0 <= y < w,
    ;
}

/// Index of the cell at column `x`, row `y` on a board of side `w`.
pub fn coords_to_idx(w: u8, x: u8, y: u8) -> (r: usize)
    requires
        x < w,
        y < w,
    ensures
        r == flat_index(w as int, x as int, y as int),
        r < w * w,
{
    proof {
        lemma_flat_index_bound(w as int, x as int, y as int);
        assert(y * w <= 255 * 255) by (nonlinear_arith)
            requires
                y < w,
                w <= 255,
        ;
    }
    y as usize * w as usize + x as usize
}

/// Places exactly `mine_count` mines on `n` blank cells. Each mine goes to a
/// cell drawn uniformly among those not mined yet: the distribution that
/// redrawing on an already mined cell gives, reached in one draw per mine.
fn place_mines(n: usize, mine_count: usize, rng: &mut StdRng) -> (cells: Vec<Cell>)
    requires
        mine_count <= n,
    ensures
        cells@.len() == n,
        mine_total(cells@) == mine_count,
        forall|i: int|
            0 <= i < n ==> (#[trigger] cells@[i]).state == CellState::Hidden
                && cells@[i].adjacent_mine_count == 0,
{
    let mut cells: Vec<Cell> = Vec::new();
    let mut free: Vec<usize> = Vec::new();
    let mut i: usize = 0;
    while i < n
        invariant
            i <= n,
            cells@.len() == i,
            free@.len() == i,
            forall|j: int| 0 <= j < i ==> free@[j] == j,
            forall|j: int| 0 <= j < i ==> cells@[j] == blank_cell(),
            mine_total(cells@) == 0,
        decreases n - i,
    {
        proof {
            lemma_count_push(cells@, |c: Cell| c.is_mine, blank_cell());
        }
        cells.push(Cell { state: CellState::Hidden, is_mine: false, adjacent_mine_count: 0 });
        free.push(i);
        i += 1;
    }
    let mut placed: usize = 0;
    while placed < mine_count
        invariant
            placed <= mine_count <= n,
            cells@.len() == n,
            free@.len() == n - placed,
            mine_total(cells@) == placed,
            forall|j: int| 0 <= j < free@.len() ==> #[trigger] free@[j] < n,
            forall|j: int| 0 <= j < free@.len() ==> !cells@[#[trigger] free@[j] as int].is_mine,
            forall|j: int, k: int| 0 <= j < k < free@.len() ==> free@[j] != free@[k],
            forall|j: int|
                0 <= j < n ==> (#[trigger] cells@[j]).state == CellState::Hidden
                    && cells@[j].adjacent_mine_count == 0,
        decreases mine_count - placed,
    {
        let k = draw_below(rng, free.len());
        let ghost before = free@;
        let target = free.swap_remove(k);
        assert(forall|j: int| 0 <= j < free@.len() ==> free@[j] != target) by {
            assert forall|j: int| 0 <= j < free@.len() implies free@[j] != target by {
                if j == k {
                    assert(free@[j] == before[before.len() - 1]);
                } else {
                    assert(free@[j] == before[j]);
                }
            }
        }
        let ghost old_cells = cells@;
        let cell = cells[target];
        cells[target] = Cell { state: cell.state, is_mine: true, adjacent_mine_count: cell.adjacent_mine_count };
        proof {
            lemma_count_update(old_cells, |c: Cell| c.is_mine, target as int, cells@[target as int]);
            assert(cells@ == old_cells.update(target as int, cells@[target as int]));
            assert forall|j: int| 0 <= j < free@.len() implies !cells@[#[trigger] free@[j] as int].is_mine by {
                if j == k {
                    assert(free@[j] == before[before.len() - 1]);
                } else {
                    assert(free@[j] == before[j]);
                }
            }
            assert forall|j: int, m: int| 0 <= j < m < free@.len() implies free@[j] != free@[m] by {
                if j == k {
                    assert(free@[j] == before[before.len() - 1]);
                    assert(free@[m] == before[m]);
                } else if m == k {
                    assert(free@[m] == before[before.len() - 1]);
                    assert(free@[j] == before[j]);
                } else {
                    assert(free@[j] == before[j]);
                    assert(free@[m] == before[m]);
                }
            }
        }
        placed += 1;
    }
    cells
}

pub proof fn lemma_count_congruent(a: Seq<Cell>, b: Seq<Cell>, p: spec_fn(Cell) -> bool)
    requires
        a.len() == b.len(),
        forall|i: int| 0 <= i < a.len() ==> p(#[trigger] a[i]) == p(b[i]),
    ensures
        count_where(a, p) == count_where(b, p),
    decreases a.len(),
{
    if a.len() > 0 {
        lemma_count_congruent(a.drop_last(), b.drop_last(), p);
    }
}

/// Mines among the first `b` cells of the column at `cx`, from row `y - 1` down.
pub open spec fn column_prefix(cells: Seq<Cell>, w: int, cx: int, y: int, b: int) -> nat
    decreases b,
{
    if b <= 0 {
        0
    } else {
        column_prefix(cells, w, cx, y, b - 1) + mine_bit(cells, w, cx, y - 1 + b - 1)
    }
}

/// Mines among the first `a` columns of the 3-by-3 window centred on (x, y).
pub open spec fn window_prefix(cells: Seq<Cell>, w: int, x: int, y: int, a: int) -> nat
    decreases a,
{
    if a <= 0 {
        0
    } else {
        window_prefix(cells, w, x, y, a - 1) + column_prefix(cells, w, x - 1 + a - 1, y, 3)
    }
}

proof fn lemma_window_full(cells: Seq<Cell>, w: int, x: int, y: int)
    ensures
        window_prefix(cells, w, x, y, 3) == adjacent_mines(cells, w, x, y) + mine_bit(cells, w, x, y),
{
    reveal_with_fuel(window_prefix, 4);
    reveal_with_fuel(column_prefix, 4);
}

/// The neighbour count reads nothing but where the mines are.
proof fn lemma_adjacent_same_mines(a: Seq<Cell>, b: Seq<Cell>, w: int, x: int, y: int)
    requires
        a.len() == b.len(),
        forall|i: int| 0 <= i < a.len() ==> (#[trigger] a[i]).is_mine == b[i].is_mine,
        a.len() == w * w,
    ensures
        adjacent_mines(a, w, x, y) == adjacent_mines(b, w, x, y),
{
    assert forall|i: int, j: int| #[trigger] in_grid(w, i, j) implies mine_at(a, w, i, j) == mine_at(
        b,
        w,
        i,
        j,
    ) by {
        lemma_flat_index_bound(w, i, j);
    }
}

/// Counts the mines around (x, y), scanning the 3-by-3 window with signed
/// coordinates so that the row and column before 0 are seen and skipped.
fn count_adjacent(cells: &Vec<Cell>, w: u8, x: u8, y: u8) -> (r: u8)
    requires
        cells@.len() == w * w,
        x < w,
        y < w,
        !cells@[flat_index(w as int, x as int, y as int)].is_mine,
    ensures
        r == adjacent_mines(cells@, w as int, x as int, y as int),
        r <= 8,
{
    let mut count: u8 = 0;
    let mut nx: i16 = x as i16 - 1;
    while nx <= x as i16 + 1
        invariant
            x as i16 - 1 <= nx <= x as i16 + 2,
            cells@.len() == w * w,
            x < w,
            y < w,
            count == window_prefix(cells@, w as int, x as int, y as int, nx - x + 1),
            count <= 3 * (nx - x + 1),
        decreases x as i16 + 2 - nx,
    {
        let mut ny: i16 = y as i16 - 1;
        while ny <= y as i16 + 1
            invariant
                x as i16 - 1 <= nx <= x as i16 + 1,
                y as i16 - 1 <= ny <= y as i16 + 2,
                cells@.len() == w * w,
                x < w,
                y < w,
                count == window_prefix(cells@, w as int, x as int, y as int, nx - x + 1)
                    + column_prefix(cells@, w as int, nx as int, y as int, ny - y + 1),
                count <= 3 * (nx - x + 1) + (ny - y + 1),
            decreases y as i16 + 2 - ny,
        {
            if nx >= 0 && ny >= 0 && nx < w as i16 && ny < w as i16 {
                let idx = coords_to_idx(w, nx as u8, ny as u8);
                if cells[idx].is_mine {
                    count += 1;
                }
            }
            ny += 1;
        }
        nx += 1;
    }
    proof {
        lemma_window_full(cells@, w as int, x as int, y as int);
    }
    count
}

/// Fills in the neighbour count of every cell without a mine.
fn fill_adjacent_counts(cells: &mut Vec<Cell>, w: u8)
    requires
        old(cells)@.len() == w * w,
    ensures
        final(cells)@.len() == w * w,
        forall|i: int|
            0 <= i < w * w ==> (#[trigger] final(cells)@[i]).is_mine == old(cells)@[i].is_mine
                && final(cells)@[i].state == old(cells)@[i].state,
        forall|i: int|
            0 <= i < w * w && final(cells)@[i].is_mine ==> #[trigger] final(cells)@[i]
                == old(cells)@[i],
        forall|x: int, y: int|
            #![trigger flat_index(w as int, x, y)]
            in_grid(w as int, x, y) && !final(cells)@[flat_index(w as int, x, y)].is_mine
                ==> final(cells)@[flat_index(w as int, x, y)].adjacent_mine_count == adjacent_mines(
                final(cells)@,
                w as int,
                x,
                y,
            ),
{
    let ghost start = cells@;
    let mut y: u8 = 0;
    while y < w
        invariant
            y <= w,
            cells@.len() == w * w,
            start.len() == w * w,
            forall|i: int|
                0 <= i < w * w ==> (#[trigger] cells@[i]).is_mine == start[i].is_mine
                    && cells@[i].state == start[i].state,
            forall|i: int| 0 <= i < w * w && cells@[i].is_mine ==> #[trigger] cells@[i] == start[i],
            forall|cx: int, cy: int|
                #![trigger flat_index(w as int, cx, cy)]
                in_grid(w as int, cx, cy) && cy < y && !cells@[flat_index(w as int, cx, cy)].is_mine
                    ==> cells@[flat_index(w as int, cx, cy)].adjacent_mine_count == adjacent_mines(
                    start,
                    w as int,
                    cx,
                    cy,
                ),
        decreases w - y,
    {
        let mut x: u8 = 0;
        while x < w
            invariant
                x <= w,
                y < w,
                cells@.len() == w * w,
                start.len() == w * w,
                forall|i: int|
                    0 <= i < w * w ==> (#[trigger] cells@[i]).is_mine == start[i].is_mine
                        && cells@[i].state == start[i].state,
                forall|i: int| 0 <= i < w * w && cells@[i].is_mine ==> #[trigger] cells@[i] == start[i],
                forall|cx: int, cy: int|
                    #![trigger flat_index(w as int, cx, cy)]
                    in_grid(w as int, cx, cy) && (cy < y || (cy == y && cx < x)) && !cells@[flat_index(
                        w as int,
                        cx,
                        cy,
                    )].is_mine ==> cells@[flat_index(w as int, cx, cy)].adjacent_mine_count
                        == adjacent_mines(start, w as int, cx, cy),
            decreases w - x,
        {
            let idx = coords_to_idx(w, x, y);
            if !cells[idx].is_mine {
                proof {
                    lemma_adjacent_same_mines(cells@, start, w as int, x as int, y as int);
                }
                let n = count_adjacent(cells, w, x, y);
                let ghost before = cells@;
                let cell = cells[idx];
                cells[idx] = Cell { state: cell.state, is_mine: false, adjacent_mine_count: n };
                proof {
                    assert forall|cx: int, cy: int|
                        #![trigger flat_index(w as int, cx, cy)]
                        in_grid(w as int, cx, cy) && (cy < y || (cy == y && cx < x + 1))
                            && !cells@[flat_index(w as int, cx, cy)].is_mine implies cells@[flat_index(
                        w as int,
                        cx,
                        cy,
                    )].adjacent_mine_count == adjacent_mines(start, w as int, cx, cy) by {
                        lemma_flat_index_bound(w as int, cx, cy);
                        if cx != x || cy != y {
                            lemma_flat_index_distinct(w as int, cx, cy, x as int, y as int);
                        }
                    }
                }
            }
            x += 1;
        }
        y += 1;
    }
    proof {
        assert forall|x: int, y: int|
            #![trigger flat_index(w as int, x, y)]
            in_grid(w as int, x, y) implies adjacent_mines(cells@, w as int, x, y) == adjacent_mines(
            start,
            w as int,
            x,
            y,
        ) by {
            lemma_adjacent_same_mines(cells@, start, w as int, x, y);
        }
    }
}

pub proof fn lemma_flat_index_distinct(w: int, x1: int, y1: int, x2: int, y2: int)
    requires
        in_grid(w, x1, y1),
        in_grid(w, x2, y2),
        x1 != x2 || y1 != y2,
    ensures
        flat_index(w, x1, y1) != flat_index(w, x2, y2),
{
    if y1 == y2 {
    } else if y1 < y2 {
        assert(y1 * w + x1 < y2 * w + x2) by (nonlinear_arith)
            requires
                0 <= x1 < w,
                0 <= x2 < w,
                y1 < y2,
        ;
    } else {
        assert(y2 * w + x2 < y1 * w + x1) by (nonlinear_arith)
            requires
                0 <= x1 < w,
                0 <= x2 < w,
                y2 < y1,
        ;
    }
}

impl Board {
    /// Builds a board of side `width` holding exactly `mine_count` mines,
    /// placed by a generator seeded with `seed`, with every cell hidden and
    /// every safe cell holding the number of mines around it.
    pub fn generate(width: u8, mine_count: usize, seed: u64) -> (r: Result<Board, BoardError>)
        ensures
            match r {
                Ok(b) => fresh_board(b@, width as int, mine_count as int),
                Err(e) => generate_error(width as int, mine_count as int, e),
            },
    {
        if width == 0 {
            return Err(BoardError::ZeroWidth);
        }
        proof {
            assert(width * width <= 255 * 255) by (nonlinear_arith)
                requires
                    width <= 255,
            ;
        }
        let total = width as usize * width as usize;
        if mine_count > total {
            return Err(BoardError::TooManyMines);
        }
        let mut rng = seeded_rng(seed);
        let mut cells = place_mines(total, mine_count, &mut rng);
        let ghost placed = cells@;
        fill_adjacent_counts(&mut cells, width);
        proof {
            lemma_count_congruent(cells@, placed, |c: Cell| c.is_mine);
            lemma_mine_safe_split(cells@);
        }
        Ok(Board { width, cells })
    }

    /// Builds a board of side `width` with a mine exactly where `mines`
    /// holds `true`, read row by row, every cell hidden and every safe cell
    /// holding the number of mines around it.
    pub fn with_mines(width: u8, mines: &Vec<bool>) -> (r: Result<Board, BoardError>)
        ensures
            match r {
                Ok(b) => {
                    &&& width > 0 && mines@.len() == width * width
                    &&& b@.wf()
                    &&& b@.width == width
                    &&& forall|i: int|
                        0 <= i < b@.cells.len() ==> (#[trigger] b@.cells[i]).is_mine == mines@[i]
                            && b@.cells[i].state == CellState::Hidden
                },
                Err(e) => {
                    ||| width == 0 && e == BoardError::ZeroWidth
                    ||| width > 0 && mines@.len() != width * width && e == BoardError::LayoutSize
                },
            },
    {
        if width == 0 {
            return Err(BoardError::ZeroWidth);
        }
        proof {
            assert(width * width <= 255 * 255) by (nonlinear_arith)
                requires
                    width <= 255,
            ;
        }
        let total = width as usize * width as usize;
        if mines.len() != total {
            return Err(BoardError::LayoutSize);
        }
        let mut cells: Vec<Cell> = Vec::new();
        let mut i: usize = 0;
        while i < total
            invariant
                i <= total,
                total == width * width,
                mines@.len() == total,
                cells@.len() == i,
                forall|j: int|
                    0 <= j < i ==> (#[trigger] cells@[j]).is_mine == mines@[j] && cells@[j].state
                        == CellState::Hidden,
            decreases total - i,
        {
            cells.push(Cell { state: CellState::Hidden, is_mine: mines[i], adjacent_mine_count: 0 });
            i += 1;
        }
        fill_adjacent_counts(&mut cells, width);
        Ok(Board { width, cells })
    }

    pub fn width(&self) -> (r: u8)
        ensures
            r == self@.width,
    {
        self.width
    }

    /// The cell at column `x`, row `y`.
    pub fn get_cell(&self, x: u8, y: u8) -> (r: Cell)
        requires
            self@.wf(),
            x < self@.width,
            y < self@.width,
        ensures
            r == self@.cell(x as int, y as int),
    {
        self.cells[coords_to_idx(self.width, x, y)]
    }

    /// Flags a hidden cell or unflags a flagged one; a revealed cell is left
    /// as it is.
    pub fn toggle_flag(&mut self, x: u8, y: u8)
        requires
            old(self)@.wf(),
            x < old(self)@.width,
            y < old(self)@.width,
        ensures
            final(self)@ == old(self)@.with_flag_toggled(x as int, y as int),
            final(self)@.wf(),
    {
        let ghost before = self@;
        let idx = coords_to_idx(self.width, x, y);
        let c = self.cells[idx];
        let state = match c.state {
            CellState::Hidden => CellState::Flagged,
            CellState::Flagged => CellState::Hidden,
            CellState::Revealed => CellState::Revealed,
        };
        self.cells[idx] = Cell { state, is_mine: c.is_mine, adjacent_mine_count: c.adjacent_mine_count };
        proof {
            assert(self@.cells =~= before.with_flag_toggled(x as int, y as int).cells);
            lemma_same_layout_wf(before, self@);
        }
    }

    /// Reveals the cell at (x, y). A flagged or already revealed cell is left
    /// alone. A safe cell with no mine around it opens its neighbours, and so
    /// on from every zero cell that opens.
    pub fn reveal_cell(&mut self, x: u8, y: u8) -> (r: RevealOutcome)
        requires
            old(self)@.wf(),
            x < old(self)@.width,
            y < old(self)@.width,
        ensures
            final(self)@.wf(),
            reveal_effect(old(self)@, final(self)@, x as int, y as int),
            r == outcome_of(old(self)@.cell(x as int, y as int)),
    {
        let ghost a = self@;
        let w = self.width;
        let idx = coords_to_idx(w, x, y);
        let c = self.cells[idx];
        if c.state != CellState::Hidden {
            return RevealOutcome::Ignored;
        }
        self.cells[idx] = Cell {
            state: CellState::Revealed,
            is_mine: c.is_mine,
            adjacent_mine_count: c.adjacent_mine_count,
        };
        proof {
            lemma_frame(a, self@, x as int, y as int, self@.cells[idx as int]);
            assert(self@.cells =~= a.with_revealed(x as int, y as int).cells);
            lemma_same_layout_wf(a, self@);
        }
        if c.is_mine {
            return RevealOutcome::HitMine;
        }
        let mut stack: Vec<(u8, u8)> = Vec::new();
        if c.adjacent_mine_count == 0 {
            stack.push((x, y));
        }
        proof {
            assert(newly_revealed(a, self@, x as int, y as int));
            assert forall|cx: int, cy: int| #[trigger]
                newly_revealed(a, self@, cx, cy) implies cx == x && cy == y by {}
            if c.adjacent_mine_count == 0 {
                assert(stack@[0] == (x, y));
            }
        }
        while stack.len() > 0
            invariant
                a.wf(),
                self@.width == a.width,
                self.width == w,
                x < w,
                y < w,
                self@.cells.len() == w * w,
                cascade_progress(a, self@, x as int, y as int),
                cascade_pending(a, self@, stack@),
                cascade_closed_but(a, self@, stack@, -1, -1),
            decreases hidden_total(self@.cells), stack@.len(),
        {
            let ghost h0 = hidden_total(self@.cells);
            let ghost s0 = stack@.len();
            proof {
                lemma_pop(a, self@, stack@);
            }
            let (px, py) = stack.pop().unwrap();
            proof {
                lemma_newly_safe(a, self@, px as int, py as int);
                lemma_flat_index_bound(w as int, px as int, py as int);
                assert(adjacent_mines(a.cells, w as int, px as int, py as int) == 0);
            }
            let mut nx: i16 = px as i16 - 1;
            while nx <= px as i16 + 1
                invariant
                    a.cells.len() == w * w,
                    self@.width == a.width,
                    self.width == w,
                    x < w,
                    y < w,
                    px < w,
                    py < w,
                    px as i16 - 1 <= nx <= px as i16 + 2,
                    self@.cells.len() == w * w,
                    adjacent_mines(a.cells, w as int, px as int, py as int) == 0,
                    newly_revealed(a, self@, px as int, py as int),
                    self@.cell(px as int, py as int).adjacent_mine_count == 0,
                    cascade_progress(a, self@, x as int, y as int),
                    cascade_pending(a, self@, stack@),
                    cascade_closed_but(a, self@, stack@, px as int, py as int),
                    window_open(self@, px as int, py as int, nx as int, py - 1),
                    hidden_total(self@.cells) <= h0,
                    hidden_total(self@.cells) == h0 ==> stack@.len() < s0,
                decreases px as i16 + 2 - nx,
            {
                let mut ny: i16 = py as i16 - 1;
                while ny <= py as i16 + 1
                    invariant
                        a.cells.len() == w * w,
                        self@.width == a.width,
                        self.width == w,
                        x < w,
                        y < w,
                        px < w,
                        py < w,
                        px as i16 - 1 <= nx <= px as i16 + 1,
                        py as i16 - 1 <= ny <= py as i16 + 2,
                        self@.cells.len() == w * w,
                        adjacent_mines(a.cells, w as int, px as int, py as int) == 0,
                        newly_revealed(a, self@, px as int, py as int),
                        self@.cell(px as int, py as int).adjacent_mine_count == 0,
                        cascade_progress(a, self@, x as int, y as int),
                        cascade_pending(a, self@, stack@),
                        cascade_closed_but(a, self@, stack@, px as int, py as int),
                        window_open(self@, px as int, py as int, nx as int, ny as int),
                        hidden_total(self@.cells) <= h0,
                        hidden_total(self@.cells) == h0 ==> stack@.len() < s0,
                    decreases py as i16 + 2 - ny,
                {
                    self.open_neighbour(&mut stack, Ghost(a), x, y, px, py, nx, ny);
                    ny += 1;
                }
                nx += 1;
            }
            proof {
                assert forall|cx: int, cy: int|
                    #[trigger] newly_revealed(a, self@, cx, cy) && self@.cell(cx, cy).adjacent_mine_count == 0
                        && !neighbours_open(self@, cx, cy) implies stack@.contains(
                    (cx as u8, cy as u8),
                ) by {
                    if cx == px && cy == py {
                        assert(neighbours_open(self@, cx, cy));
                    }
                }
            }
        }
        proof {
            lemma_same_layout_wf(a, self@);
            assert forall|cx: int, cy: int|
                #[trigger] newly_revealed(a, self@, cx, cy) && self@.cell(cx, cy).adjacent_mine_count
                    == 0 implies neighbours_open(self@, cx, cy) by {
                if !neighbours_open(self@, cx, cy) {
                    assert(stack@.contains((cx as u8, cy as u8)));
                }
            }
        }
        RevealOutcome::Cleared
    }

    /// One step of the cascade from the zero cell (px, py): opens its
    /// neighbour (nx, ny) if that is on the grid and hidden, and queues it
    /// when it has no mine around it either.
    fn open_neighbour(
        &mut self,
        stack: &mut Vec<(u8, u8)>,
        a: Ghost<BoardModel>,
        x: u8,
        y: u8,
        px: u8,
        py: u8,
        nx: i16,
        ny: i16,
    )
        requires
            a@.cells.len() == a@.width * a@.width,
            old(self)@.width == a@.width,
            old(self).width == a@.width,
            x < a@.width,
            y < a@.width,
            px < a@.width,
            py < a@.width,
            px - 1 <= nx <= px + 1,
            py - 1 <= ny <= py + 1,
            old(self)@.cells.len() == a@.cells.len(),
            adjacent_mines(a@.cells, a@.width, px as int, py as int) == 0,
            newly_revealed(a@, old(self)@, px as int, py as int),
            old(self)@.cell(px as int, py as int).adjacent_mine_count == 0,
            cascade_progress(a@, old(self)@, x as int, y as int),
            cascade_pending(a@, old(self)@, old(stack)@),
            cascade_closed_but(a@, old(self)@, old(stack)@, px as int, py as int),
            window_open(old(self)@, px as int, py as int, nx as int, ny as int),
        ensures
            final(self)@.width == a@.width,
            final(self).width == a@.width,
            final(self)@.cells.len() == a@.cells.len(),
            newly_revealed(a@, final(self)@, px as int, py as int),
            final(self)@.cell(px as int, py as int).adjacent_mine_count == 0,
            cascade_progress(a@, final(self)@, x as int, y as int),
            cascade_pending(a@, final(self)@, final(stack)@),
            cascade_closed_but(a@, final(self)@, final(stack)@, px as int, py as int),
            window_open(final(self)@, px as int, py as int, nx as int, ny + 1),
            hidden_total(final(self)@.cells) <= hidden_total(old(self)@.cells),
            hidden_total(final(self)@.cells) == hidden_total(old(self)@.cells) ==> final(stack)@
                == old(stack)@,
    {
        let w = self.width;
        if nx >= 0 && ny >= 0 && nx < w as i16 && ny < w as i16 {
            let nidx = coords_to_idx(w, nx as u8, ny as u8);
            let n = self.cells[nidx];
            if n.state == CellState::Hidden {
                let ghost b = self@;
                let ghost st = stack@;
                proof {
                    lemma_zero_neighbour(a@.cells, w as int, px as int, py as int, nx as int, ny as int);
                    lemma_flat_index_bound(w as int, nx as int, ny as int);
                    assert(b.cells[nidx as int].is_mine == a@.cells[nidx as int].is_mine);
                }
                self.cells[nidx] = Cell {
                    state: CellState::Revealed,
                    is_mine: n.is_mine,
                    adjacent_mine_count: n.adjacent_mine_count,
                };
                if n.adjacent_mine_count == 0 {
                    stack.push((nx as u8, ny as u8));
                }
                proof {
                    lemma_reveal_step(
                        a@,
                        b,
                        self@,
                        st,
                        stack@,
                        x as int,
                        y as int,
                        px as int,
                        py as int,
                        nx as int,
                        ny as int,
                    );
                    assert forall|qx: int, qy: int|
                        in_grid(self@.width, qx, qy) && neighbours(px as int, py as int, qx, qy) && (qx
                            < nx || (qx == nx && qy < ny + 1)) implies (#[trigger] self@.cell(
                        qx,
                        qy,
                    )).state != CellState::Hidden by {
                        if qx != nx || qy != ny {
                            assert(b.cell(qx, qy).state != CellState::Hidden);
                        }
                    }
                }
            }
        }
    }

    /// Whether every cell without a mine has been revealed.
    pub fn all_safe_revealed(&self) -> (r: bool)
        ensures
            r == self@.all_safe_revealed(),
    {
        let mut i: usize = 0;
        while i < self.cells.len()
            invariant
                i <= self.cells@.len(),
                forall|j: int|
                    0 <= j < i && !(#[trigger] self.cells@[j]).is_mine ==> self.cells@[j].state
                        == CellState::Revealed,
            decreases self.cells@.len() - i,
        {
            if !self.cells[i].is_mine && self.cells[i].state != CellState::Revealed {
                return false;
            }
            i += 1;
        }
        true
    }
}

/// Same side, and each cell keeps its mine and its neighbour count.
pub open spec fn same_layout(a: BoardModel, b: BoardModel) -> bool {
    &&& a.width == b.width
    &&& a.cells.len() == b.cells.len()
    &&& forall|i: int|
        0 <= i < a.cells.len() ==> (#[trigger] a.cells[i]).is_mine == b.cells[i].is_mine
            && a.cells[i].adjacent_mine_count == b.cells[i].adjacent_mine_count
}

/// Changing only the states of cells keeps a board well formed.
pub proof fn lemma_same_layout_wf(a: BoardModel, b: BoardModel)
    requires
        a.wf(),
        same_layout(a, b),
    ensures
        b.wf(),
{
    assert forall|x: int, y: int|
        #![trigger flat_index(b.width, x, y)]
        in_grid(b.width, x, y) && !b.cells[flat_index(b.width, x, y)].is_mine implies b.cells[flat_index(
        b.width,
        x,
        y,
    )].adjacent_mine_count == adjacent_mines(b.cells, b.width, x, y) by {
        lemma_flat_index_bound(b.width, x, y);
        lemma_adjacent_same_mines(a.cells, b.cells, b.width, x, y);
    }
}

/// A newly built board of side `width` with `mine_count` mines: well formed,
/// exactly `mine_count` mined cells and `width * width - mine_count` safe
/// ones, every cell hidden.
pub open spec fn fresh_board(b: BoardModel, width: int, mine_count: int) -> bool {
    &&& width > 0 && mine_count <= width * width
    &&& b.wf()
    &&& b.width == width
    &&& mine_total(b.cells) == mine_count
    &&& safe_total(b.cells) == width * width - mine_count
    &&& forall|i: int| 0 <= i < b.cells.len() ==> (#[trigger] b.cells[i]).state == CellState::Hidden
}

/// The error for a request that no board can meet.
pub open spec fn generate_error(width: int, mine_count: int, e: BoardError) -> bool {
    ||| width == 0 && e == BoardError::ZeroWidth
    ||| width > 0 && mine_count > width * width && e == BoardError::TooManyMines
}

/// What revealing the cell `c` leads to.
pub open spec fn outcome_of(c: Cell) -> RevealOutcome {
    if c.state != CellState::Hidden {
        RevealOutcome::Ignored
    } else if c.is_mine {
        RevealOutcome::HitMine
    } else {
        RevealOutcome::Cleared
    }
}

/// How revealing (x, y) takes board `a` to board `b`: a flagged or revealed
/// cell changes nothing; a mine is shown alone; a safe cell is shown and
/// the cascade from it runs to its end, opening nothing else.
pub open spec fn reveal_effect(a: BoardModel, b: BoardModel, x: int, y: int) -> bool {
    let c = a.cell(x, y);
    &&& c.state != CellState::Hidden ==> b == a
    &&& c.state == CellState::Hidden && c.is_mine ==> b == a.with_revealed(x, y)
    &&& c.state == CellState::Hidden && !c.is_mine ==> {
        &&& same_layout(a, b)
        &&& b.cell(x, y).state == CellState::Revealed
        &&& only_reveals_safe(a, b)
        &&& cascade_closed(a, b)
        &&& cascade_supported(a, b, x, y)
    }
}

/// (nx, ny) is one of the up-to-eight neighbours of (cx, cy).
pub open spec fn neighbours(cx: int, cy: int, nx: int, ny: int) -> bool {
    &&& nx != cx || ny != cy
    &&& cx - 1 <= nx <= cx + 1
    &&& cy - 1 <= ny <= cy + 1
}

/// The cell at (x, y) was hidden on `a` and is revealed on `b`.
pub open spec fn newly_revealed(a: BoardModel, b: BoardModel, x: int, y: int) -> bool {
    &&& in_grid(a.width, x, y)
    &&& a.cell(x, y).state == CellState::Hidden
    &&& b.cell(x, y).state == CellState::Revealed
}

/// No neighbour of (x, y) is hidden.
pub open spec fn neighbours_open(b: BoardModel, x: int, y: int) -> bool {
    forall|nx: int, ny: int|
        in_grid(b.width, nx, ny) && neighbours(x, y, nx, ny) ==> (#[trigger] b.cell(nx, ny)).state
            != CellState::Hidden
}

/// The only changes from `a` to `b` are safe hidden cells that were revealed.
pub open spec fn only_reveals_safe(a: BoardModel, b: BoardModel) -> bool {
    forall|i: int|
        0 <= i < a.cells.len() && (#[trigger] a.cells[i]).state != b.cells[i].state ==> {
            &&& a.cells[i].state == CellState::Hidden
            &&& b.cells[i].state == CellState::Revealed
            &&& !a.cells[i].is_mine
        }
}

/// Every cell revealed from `a` to `b` with no mine around it has all its
/// neighbours open: the cascade ran to its end.
pub open spec fn cascade_closed(a: BoardModel, b: BoardModel) -> bool {
    forall|cx: int, cy: int|
        #[trigger] newly_revealed(a, b, cx, cy) && b.cell(cx, cy).adjacent_mine_count == 0
            ==> neighbours_open(b, cx, cy)
}

/// Every cell revealed from `a` to `b` other than (x, y) touches a revealed
/// cell with no mine around it: the cascade reached nothing else.
pub open spec fn cascade_supported(a: BoardModel, b: BoardModel, x: int, y: int) -> bool {
    forall|cx: int, cy: int|
        #[trigger] newly_revealed(a, b, cx, cy) && (cx != x || cy != y) ==> exists|px: int, py: int|
            {
                &&& #[trigger] newly_revealed(a, b, px, py)
                &&& b.cell(px, py).adjacent_mine_count == 0
                &&& neighbours(px, py, cx, cy)
            }
}

spec fn cascade_progress(a: BoardModel, b: BoardModel, x: int, y: int) -> bool {
    &&& same_layout(a, b)
    &&& only_reveals_safe(a, b)
    &&& b.cell(x, y).state == CellState::Revealed
    &&& cascade_supported(a, b, x, y)
}

/// Every cell on the worklist was revealed and has no mine around it.
spec fn cascade_pending(a: BoardModel, b: BoardModel, stack: Seq<(u8, u8)>) -> bool {
    forall|k: int|
        0 <= k < stack.len() ==> newly_revealed(a, b, (#[trigger] stack[k]).0 as int, stack[k].1 as int)
            && b.cell(stack[k].0 as int, stack[k].1 as int).adjacent_mine_count == 0
}

/// Every revealed zero cell but (px, py) with a hidden neighbour waits on the
/// worklist.
spec fn cascade_closed_but(
    a: BoardModel,
    b: BoardModel,
    stack: Seq<(u8, u8)>,
    px: int,
    py: int,
) -> bool {
    forall|cx: int, cy: int|
        #[trigger] newly_revealed(a, b, cx, cy) && b.cell(cx, cy).adjacent_mine_count == 0 && (cx
            != px || cy != py) && !neighbours_open(b, cx, cy) ==> stack.contains((cx as u8, cy as u8))
}

/// The neighbours of (px, py) before column `ix`, and those of column `ix`
/// before row `iy`, are not hidden.
spec fn window_open(b: BoardModel, px: int, py: int, ix: int, iy: int) -> bool {
    forall|qx: int, qy: int|
        in_grid(b.width, qx, qy) && neighbours(px, py, qx, qy) && (qx < ix || (qx == ix && qy < iy))
            ==> (#[trigger] b.cell(qx, qy)).state != CellState::Hidden
}

proof fn lemma_frame(b: BoardModel, b2: BoardModel, nx: int, ny: int, v: Cell)
    requires
        b.cells.len() == b.width * b.width,
        in_grid(b.width, nx, ny),
        b2.width == b.width,
        b2.cells == b.cells.update(b.index(nx, ny), v),
    ensures
        b2.cell(nx, ny) == v,
        forall|qx: int, qy: int|
            in_grid(b.width, qx, qy) && (qx != nx || qy != ny) ==> #[trigger] b2.cell(qx, qy) == b.cell(
                qx,
                qy,
            ),
{
    lemma_flat_index_bound(b.width, nx, ny);
    assert forall|qx: int, qy: int|
        in_grid(b.width, qx, qy) && (qx != nx || qy != ny) implies #[trigger] b2.cell(qx, qy) == b.cell(
        qx,
        qy,
    ) by {
        lemma_flat_index_bound(b.width, qx, qy);
        lemma_flat_index_distinct(b.width, qx, qy, nx, ny);
    }
}

/// A neighbour of a cell with no mine around it holds no mine.
proof fn lemma_zero_neighbour(cells: Seq<Cell>, w: int, px: int, py: int, nx: int, ny: int)
    requires
        adjacent_mines(cells, w, px, py) == 0,
        neighbours(px, py, nx, ny),
    ensures
        !mine_at(cells, w, nx, ny),
{
    if nx == px - 1 {
        if ny == py - 1 {
        } else if ny == py {
        } else {
        }
    } else if nx == px {
        if ny == py - 1 {
        } else {
        }
    } else {
        if ny == py - 1 {
        } else if ny == py {
        } else {
        }
    }
}

/// Revealing the hidden neighbour (nx, ny) of the zero cell (px, py), and
/// queueing it when it is a zero cell too, keeps the cascade's invariants.
proof fn lemma_reveal_step(
    a: BoardModel,
    b: BoardModel,
    b2: BoardModel,
    stack: Seq<(u8, u8)>,
    stack2: Seq<(u8, u8)>,
    x: int,
    y: int,
    px: int,
    py: int,
    nx: int,
    ny: int,
)
    requires
        a.cells.len() == a.width * a.width,
        a.width <= 255,
        in_grid(a.width, x, y),
        cascade_progress(a, b, x, y),
        cascade_pending(a, b, stack),
        cascade_closed_but(a, b, stack, px, py),
        newly_revealed(a, b, px, py),
        b.cell(px, py).adjacent_mine_count == 0,
        in_grid(a.width, nx, ny),
        neighbours(px, py, nx, ny),
        b.cell(nx, ny).state == CellState::Hidden,
        !b.cell(nx, ny).is_mine,
        b2.width == b.width,
        b2.cells == b.cells.update(b.index(nx, ny), Cell { state: CellState::Revealed, ..b.cell(nx, ny) }),
        stack2 == (if b.cell(nx, ny).adjacent_mine_count == 0 {
            stack.push((nx as u8, ny as u8))
        } else {
            stack
        }),
    ensures
        cascade_progress(a, b2, x, y),
        cascade_pending(a, b2, stack2),
        cascade_closed_but(a, b2, stack2, px, py),
        newly_revealed(a, b2, px, py),
        b2.cell(nx, ny).state == CellState::Revealed,
        forall|qx: int, qy: int|
            in_grid(b.width, qx, qy) && b.cell(qx, qy).state != CellState::Hidden ==> #[trigger] b2.cell(
                qx,
                qy,
            ) == b.cell(qx, qy),
        hidden_total(b2.cells) + 1 == hidden_total(b.cells),
{
    let w = a.width;
    let ni = b.index(nx, ny);
    lemma_flat_index_bound(w, nx, ny);
    lemma_flat_index_bound(w, px, py);
    lemma_frame(b, b2, nx, ny, Cell { state: CellState::Revealed, ..b.cell(nx, ny) });
    lemma_count_update(b.cells, |c: Cell| c.state == CellState::Hidden, ni, b2.cells[ni]);
    // the cell was hidden on `a` too, and holds no mine
    assert(a.cells[ni].state == CellState::Hidden);
    assert(newly_revealed(a, b2, nx, ny));
    if x != nx || y != ny {
        assert(b2.cell(x, y) == b.cell(x, y));
    }
    assert(same_layout(a, b2));
    assert(only_reveals_safe(a, b2));
    // cells revealed before stay revealed
    assert forall|qx: int, qy: int| #[trigger] newly_revealed(a, b, qx, qy) implies newly_revealed(
        a,
        b2,
        qx,
        qy,
    ) && b2.cell(qx, qy) == b.cell(qx, qy) by {}
    assert forall|cx: int, cy: int|
        #[trigger] newly_revealed(a, b2, cx, cy) && (cx != x || cy != y) implies exists|qx: int, qy: int|
        {
            &&& #[trigger] newly_revealed(a, b2, qx, qy)
            &&& b2.cell(qx, qy).adjacent_mine_count == 0
            &&& neighbours(qx, qy, cx, cy)
        } by {
        if cx == nx && cy == ny {
            assert(newly_revealed(a, b2, px, py));
        } else {
            assert(newly_revealed(a, b, cx, cy));
            let (qx, qy) = choose|qx: int, qy: int|
                {
                    &&& #[trigger] newly_revealed(a, b, qx, qy)
                    &&& b.cell(qx, qy).adjacent_mine_count == 0
                    &&& neighbours(qx, qy, cx, cy)
                };
            assert(newly_revealed(a, b2, qx, qy));
        }
    }
    assert forall|k: int| 0 <= k < stack2.len() implies newly_revealed(
        a,
        b2,
        (#[trigger] stack2[k]).0 as int,
        stack2[k].1 as int,
    ) && b2.cell(stack2[k].0 as int, stack2[k].1 as int).adjacent_mine_count == 0 by {
        if k < stack.len() {
            assert(stack2[k] == stack[k]);
            assert(newly_revealed(a, b, stack[k].0 as int, stack[k].1 as int));
        } else {
            assert(stack2[k] == (nx as u8, ny as u8));
        }
    }
    assert forall|cx: int, cy: int|
        #[trigger] newly_revealed(a, b2, cx, cy) && b2.cell(cx, cy).adjacent_mine_count == 0 && (cx
            != px || cy != py) && !neighbours_open(b2, cx, cy) implies stack2.contains(
        (cx as u8, cy as u8),
    ) by {
        if cx == nx && cy == ny {
            assert(stack2[stack2.len() - 1] == (cx as u8, cy as u8));
        } else {
            assert(newly_revealed(a, b, cx, cy));
            assert(!neighbours_open(b, cx, cy)) by {
                if neighbours_open(b, cx, cy) {
                    assert forall|mx: int, my: int|
                        in_grid(b2.width, mx, my) && neighbours(cx, cy, mx, my) implies (
                        #[trigger] b2.cell(mx, my)).state != CellState::Hidden by {
                        assert(b.cell(mx, my).state != CellState::Hidden);
                    }
                }
            }
            assert(stack.contains((cx as u8, cy as u8)));
            let k = choose|k: int| 0 <= k < stack.len() && stack[k] == (cx as u8, cy as u8);
            assert(stack2[k] == stack[k]);
        }
    }
}

proof fn lemma_newly_safe(a: BoardModel, b: BoardModel, x: int, y: int)
    requires
        a.cells.len() == a.width * a.width,
        b.width == a.width,
        only_reveals_safe(a, b),
        newly_revealed(a, b, x, y),
    ensures
        !a.cell(x, y).is_mine,
{
    lemma_flat_index_bound(a.width, x, y);
    assert(a.cells[a.index(x, y)].state != b.cells[a.index(x, y)].state);
}

/// Taking (px, py) off the end of the worklist.
proof fn lemma_pop(a: BoardModel, b: BoardModel, stack: Seq<(u8, u8)>)
    requires
        stack.len() > 0,
        cascade_pending(a, b, stack),
        cascade_closed_but(a, b, stack, -1, -1),
        a.width <= 256,
    ensures
        cascade_pending(a, b, stack.drop_last()),
        cascade_closed_but(a, b, stack.drop_last(), stack.last().0 as int, stack.last().1 as int),
        newly_revealed(a, b, stack.last().0 as int, stack.last().1 as int),
        b.cell(stack.last().0 as int, stack.last().1 as int).adjacent_mine_count == 0,
{
    let s2 = stack.drop_last();
    let (px, py) = stack.last();
    assert(newly_revealed(a, b, stack[stack.len() - 1].0 as int, stack[stack.len() - 1].1 as int));
    assert forall|k: int| 0 <= k < s2.len() implies newly_revealed(
        a,
        b,
        (#[trigger] s2[k]).0 as int,
        s2[k].1 as int,
    ) && b.cell(s2[k].0 as int, s2[k].1 as int).adjacent_mine_count == 0 by {
        assert(s2[k] == stack[k]);
    }
    assert forall|cx: int, cy: int|
        #[trigger] newly_revealed(a, b, cx, cy) && b.cell(cx, cy).adjacent_mine_count == 0 && (cx
            != px || cy != py) && !neighbours_open(b, cx, cy) implies s2.contains((cx as u8, cy as u8)) by {
        let k = choose|k: int| 0 <= k < stack.len() && stack[k] == (cx as u8, cy as u8);
        if k == stack.len() - 1 {
            assert(false);
        } else {
            assert(s2[k] == stack[k]);
        }
    }
}

/// Flagging a hidden cell and then unflagging it gives back the board as it
/// was.
pub proof fn lemma_flag_twice(b: BoardModel, x: int, y: int)
    requires
        b.wf(),
        in_grid(b.width, x, y),
        b.cell(x, y).state == CellState::Hidden,
    ensures
        b.with_flag_toggled(x, y).with_flag_toggled(x, y) == b,
{
    lemma_flat_index_bound(b.width, x, y);
    assert(b.with_flag_toggled(x, y).with_flag_toggled(x, y).cells =~= b.cells);
}

} // verus!
