//! The board engine: grid construction with random mine placement,
//! neighbor counting, flood reveal, and flag toggling.
//!
//! The board is a rectangular grid stored row-major in one vector. A cell
//! is either a bomb or carries the number of bombs among its up-to-eight
//! neighbors. Revealing a zero-numbered cell floods through the whole
//! connected zero region and one ring of bordering cells around it.

use vstd::prelude::*;

verus! {

/// What one grid position holds: a bomb, or the number of bombs among its
/// up-to-eight neighbors.
#[derive(Debug, Clone, Copy, PartialEq, Eq, Structural)]
pub enum CellValue {
    Bomb,
    Num(i32),
}

/// One grid position: its value, whether it has been revealed, and whether
/// the player has flagged it.
#[derive(Debug, Clone, Copy, PartialEq, Eq, Structural)]
pub struct Cell {
    pub value: CellValue,
    pub visible: bool,
    pub has_flag: bool,
}

impl Cell {
    pub fn value(&self) -> (r: &CellValue)
        ensures
            *r == self.value,
    {
        &self.value
    }

    pub fn visible(&self) -> (r: bool)
        ensures
            r == self.visible,
    {
        self.visible
    }

    pub fn has_flag(&self) -> (r: bool)
        ensures
            r == self.has_flag,
    {
        self.has_flag
    }

    fn new(num: i32) -> (c: Cell)
        ensures
            c.value == CellValue::Num(num),
            !c.visible,
            !c.has_flag,
    {
        Cell { value: CellValue::Num(num), visible: false, has_flag: false }
    }
}

/// Two coordinates are neighbors when they differ, and each axis differs by
/// at most one (the eight-cell surrounding of a grid position).
pub open spec fn is_neighbor(x1: int, y1: int, x2: int, y2: int) -> bool {
    &&& !(x1 == x2 && y1 == y2)
    &&& -1 <= x2 - x1 && x2 - x1 <= 1
    &&& -1 <= y2 - y1 && y2 - y1 <= 1
}

/// How many cells of `s` are bombs.
pub open spec fn bombs_in(s: Seq<Cell>) -> int
    decreases s.len(),
{
    if s.len() == 0 {
        0
    } else {
        bombs_in(s.drop_last()) + if s.last().value is Bomb {
            1int
        } else {
            0int
        }
    }
}

/// How many cells of `s` are visible.
pub open spec fn visibles_in(s: Seq<Cell>) -> int
    decreases s.len(),
{
    if s.len() == 0 {
        0
    } else {
        visibles_in(s.drop_last()) + if s.last().visible {
            1int
        } else {
            0int
        }
    }
}

/// A Minesweeper board: a `width` by `height` grid of cells, stored
/// row-major (the cell at column `x`, row `y` sits at index
/// `y * width + x`).
pub struct Minesweeper {
    pub width: usize,
    pub height: usize,
    pub cells: Vec<Cell>,
}

impl Minesweeper {
    /// The row-major index of coordinate `(x, y)`.
    pub open spec fn idx(self, x: int, y: int) -> int {
        y * (self.width as int) + x
    }

    /// Whether `(x, y)` lies on the grid.
    pub open spec fn in_bounds(self, x: int, y: int) -> bool {
        0 <= x < self.width && 0 <= y < self.height
    }

    /// The cell at `(x, y)`.
    pub open spec fn cell(self, x: int, y: int) -> Cell {
        self.cells@[self.idx(x, y)]
    }

    /// The grid holds one cell for every coordinate.
    pub open spec fn grid_wf(self) -> bool {
        &&& 0 < self.width
        &&& 0 < self.height
        &&& self.cells@.len() == (self.width as int) * (self.height as int)
    }

    /// Whether an in-bounds coordinate holds a bomb; false off the grid.
    pub open spec fn bomb_at(self, x: int, y: int) -> bool {
        self.in_bounds(x, y) && self.cell(x, y).value is Bomb
    }

    /// How many of the up-to-eight neighbors of `(x, y)` hold a bomb.
    pub open spec fn neighbor_bombs(self, x: int, y: int) -> int {
        (if self.bomb_at(x - 1, y - 1) { 1int } else { 0int })
        + (if self.bomb_at(x, y - 1) { 1int } else { 0int })
        + (if self.bomb_at(x + 1, y - 1) { 1int } else { 0int })
        + (if self.bomb_at(x - 1, y) { 1int } else { 0int })
        + (if self.bomb_at(x + 1, y) { 1int } else { 0int })
        + (if self.bomb_at(x - 1, y + 1) { 1int } else { 0int })
        + (if self.bomb_at(x, y + 1) { 1int } else { 0int })
        + (if self.bomb_at(x + 1, y + 1) { 1int } else { 0int })
    }

    /// Every non-bomb cell is numbered with its count of bomb neighbors.
    pub open spec fn numbers_ok(self) -> bool {
        forall|x: int, y: int|
            self.in_bounds(x, y) && !((#[trigger] self.cell(x, y)).value is Bomb)
                ==> self.cell(x, y).value == CellValue::Num(self.neighbor_bombs(x, y) as i32)
    }

    /// A revealed cell never carries a flag.
    pub open spec fn flags_ok(self) -> bool {
        forall|x: int, y: int|
            self.in_bounds(x, y) && (#[trigger] self.cell(x, y)).visible
                ==> !self.cell(x, y).has_flag
    }

    /// Every visible zero-numbered cell has all its in-bounds neighbors
    /// visible: a revealed zero region never has a hidden border inside it.
    pub open spec fn zero_closed(self) -> bool {
        forall|x: int, y: int, nx: int, ny: int|
            self.in_bounds(x, y) && self.in_bounds(nx, ny) && #[trigger] is_neighbor(x, y, nx, ny)
                && self.cell(x, y).visible && self.cell(x, y).value == CellValue::Num(0)
                ==> self.cell(nx, ny).visible
    }

    /// The board invariant: a full grid, correct neighbor numbers, no flag
    /// on a revealed cell, and revealed zero regions closed under
    /// adjacency. Construction establishes it and every operation
    /// preserves it.
    pub open spec fn wf(self) -> bool {
        &&& self.grid_wf()
        &&& self.numbers_ok()
        &&& self.flags_ok()
        &&& self.zero_closed()
    }

    /// How many cells of the whole board are bombs.
    pub open spec fn bomb_count(self) -> int {
        bombs_in(self.cells@)
    }

    /// A walk across the grid: consecutive positions are neighbors, every
    /// position is on the grid, and every position but possibly the last
    /// is a zero-numbered cell. Such walks are exactly what a flood
    /// reveal follows.
    pub open spec fn path_ok(self, p: Seq<(int, int)>) -> bool {
        &&& p.len() >= 1
        &&& forall|i: int| 0 <= i < p.len() ==> self.in_bounds((#[trigger] p[i]).0, p[i].1)
        &&& forall|i: int|
            0 <= i < p.len() - 1 ==> is_neighbor((#[trigger] p[i]).0, p[i].1, p[i + 1].0, p[i + 1].1)
        &&& forall|i: int|
            0 <= i < p.len() - 1 ==> self.cell((#[trigger] p[i]).0, p[i].1).value == CellValue::Num(0)
    }

    /// A walk that starts at `(x, y)` and ends at `(tx, ty)`.
    pub open spec fn path_from_to(self, p: Seq<(int, int)>, x: int, y: int, tx: int, ty: int) -> bool {
        &&& self.path_ok(p)
        &&& p[0] == (x, y)
        &&& p[p.len() - 1] == (tx, ty)
    }

    /// Whether revealing `(x, y)` reaches `(tx, ty)`: the target is the
    /// start itself, or lies in the zero region connected to the start,
    /// or on the ring of cells bordering that region.
    pub open spec fn reveals(self, x: int, y: int, tx: int, ty: int) -> bool {
        exists|p: Seq<(int, int)>| self.path_from_to(p, x, y, tx, ty)
    }
}

/// Both boards have the same dimensions.
pub open spec fn same_dims(a: Minesweeper, b: Minesweeper) -> bool {
    a.width == b.width && a.height == b.height && a.cells@.len() == b.cells@.len()
}

/// Every in-bounds cell holds the same value on both boards (visibility
/// and flags are free to differ).
pub open spec fn same_values(a: Minesweeper, b: Minesweeper) -> bool {
    forall|x: int, y: int|
        #![trigger a.cell(x, y)]
        #![trigger b.cell(x, y)]
        a.in_bounds(x, y) ==> b.cell(x, y).value == a.cell(x, y).value
}

/// How one reveal changes the board: values and dimensions stay, exactly
/// the cells reachable from the start join the visible set, and a cell
/// keeps its flag only while it stays hidden.
pub open spec fn reveal_transition(pre: Minesweeper, post: Minesweeper, x: int, y: int) -> bool {
    &&& same_dims(pre, post)
    &&& same_values(pre, post)
    &&& forall|tx: int, ty: int|
        pre.in_bounds(tx, ty)
            ==> ((#[trigger] post.cell(tx, ty)).visible <==> pre.cell(tx, ty).visible
                || pre.reveals(x, y, tx, ty))
    &&& forall|tx: int, ty: int|
        pre.in_bounds(tx, ty)
            ==> (#[trigger] post.cell(tx, ty)).has_flag == (pre.cell(tx, ty).has_flag
                && !post.cell(tx, ty).visible)
}

proof fn lemma_cell_index_bounds(w: int, h: int, x: int, y: int)
    requires
        0 <= x < w,
        0 <= y < h,
    ensures
        0 <= y * w + x < w * h,
{
    assert(0 <= y * w + x < w * h) by (nonlinear_arith)
        requires
            0 <= x < w,
            0 <= y < h,
    ;
}

proof fn lemma_cell_index_injective(w: int, x1: int, y1: int, x2: int, y2: int)
    requires
        0 <= x1 < w,
        0 <= x2 < w,
        !(x1 == x2 && y1 == y2),
    ensures
        y1 * w + x1 != y2 * w + x2,
{
    if y1 != y2 {
        assert(y1 * w + x1 != y2 * w + x2) by (nonlinear_arith)
            requires
                y1 != y2,
                0 <= x1 < w,
                0 <= x2 < w,
        ;
    }
}

proof fn lemma_visibles_in_bounds(s: Seq<Cell>)
    ensures
        0 <= visibles_in(s) <= s.len(),
    decreases s.len(),
{
    if s.len() > 0 {
        lemma_visibles_in_bounds(s.drop_last());
    }
}

proof fn lemma_bombs_in_update(s: Seq<Cell>, i: int, c: Cell)
    requires
        0 <= i < s.len(),
    ensures
        bombs_in(s.update(i, c)) == bombs_in(s) - (if s[i].value is Bomb { 1int } else { 0int })
            + (if c.value is Bomb { 1int } else { 0int }),
    decreases s.len(),
{
    let t = s.update(i, c);
    if i == s.len() - 1 {
        assert(t.drop_last() =~= s.drop_last());
    } else {
        assert(t.drop_last() =~= s.drop_last().update(i, c));
        lemma_bombs_in_update(s.drop_last(), i, c);
    }
}

proof fn lemma_visibles_in_update(s: Seq<Cell>, i: int, c: Cell)
    requires
        0 <= i < s.len(),
    ensures
        visibles_in(s.update(i, c)) == visibles_in(s) - (if s[i].visible { 1int } else { 0int })
            + (if c.visible { 1int } else { 0int }),
    decreases s.len(),
{
    let t = s.update(i, c);
    if i == s.len() - 1 {
        assert(t.drop_last() =~= s.drop_last());
    } else {
        assert(t.drop_last() =~= s.drop_last().update(i, c));
        lemma_visibles_in_update(s.drop_last(), i, c);
    }
}

proof fn lemma_bombs_in_take_step(s: Seq<Cell>, i: int)
    requires
        0 <= i < s.len(),
    ensures
        bombs_in(s.take(i + 1)) == bombs_in(s.take(i)) + (if s[i].value is Bomb { 1int } else { 0int }),
{
    assert(s.take(i + 1).drop_last() =~= s.take(i));
    assert(s.take(i + 1).last() == s[i]);
}

proof fn lemma_bombs_in_none(s: Seq<Cell>)
    requires
        forall|j: int| 0 <= j < s.len() ==> !((#[trigger] s[j]).value is Bomb),
    ensures
        bombs_in(s) == 0,
    decreases s.len(),
{
    if s.len() > 0 {
        assert forall|j: int| 0 <= j < s.drop_last().len() implies !((#[trigger] s.drop_last()[j]).value
            is Bomb) by {
            assert(s.drop_last()[j] == s[j]);
        }
        lemma_bombs_in_none(s.drop_last());
    }
}

/// Replacing one cell changes the grid at that coordinate alone.
proof fn lemma_cell_update(a: Minesweeper, b: Minesweeper, x: int, y: int, c: Cell)
    requires
        a.grid_wf(),
        b.width == a.width,
        b.height == a.height,
        a.in_bounds(x, y),
        b.cells@ == a.cells@.update(a.idx(x, y), c),
    ensures
        b.grid_wf(),
        b.cell(x, y) == c,
        forall|tx: int, ty: int|
            a.in_bounds(tx, ty) && !(tx == x && ty == y) ==> #[trigger] b.cell(tx, ty) == a.cell(
                tx,
                ty,
            ),
{
    lemma_cell_index_bounds(a.width as int, a.height as int, x, y);
    assert forall|tx: int, ty: int|
        a.in_bounds(tx, ty) && !(tx == x && ty == y) implies #[trigger] b.cell(tx, ty) == a.cell(
        tx,
        ty,
    ) by {
        lemma_cell_index_bounds(a.width as int, a.height as int, tx, ty);
        lemma_cell_index_injective(a.width as int, tx, ty, x, y);
    }
}

/// Boards with bombs in the same places have the same neighbor counts
/// everywhere.
proof fn lemma_same_bombs_same_counts(a: Minesweeper, b: Minesweeper)
    requires
        a.grid_wf(),
        b.width == a.width,
        b.height == a.height,
        b.cells@.len() == a.cells@.len(),
        forall|j: int|
            0 <= j < a.cells@.len() ==> ((#[trigger] b.cells@[j]).value is Bomb <==> a.cells@[j].value
                is Bomb),
    ensures
        forall|x: int, y: int| #[trigger] b.neighbor_bombs(x, y) == a.neighbor_bombs(x, y),
{
    assert forall|x: int, y: int| #[trigger] b.bomb_at(x, y) == a.bomb_at(x, y) by {
        if a.in_bounds(x, y) {
            lemma_cell_index_bounds(a.width as int, a.height as int, x, y);
        }
    }
    assert forall|x: int, y: int| #[trigger] b.neighbor_bombs(x, y) == a.neighbor_bombs(x, y) by {
        assert(b.bomb_at(x - 1, y - 1) == a.bomb_at(x - 1, y - 1));
        assert(b.bomb_at(x, y - 1) == a.bomb_at(x, y - 1));
        assert(b.bomb_at(x + 1, y - 1) == a.bomb_at(x + 1, y - 1));
        assert(b.bomb_at(x - 1, y) == a.bomb_at(x - 1, y));
        assert(b.bomb_at(x + 1, y) == a.bomb_at(x + 1, y));
        assert(b.bomb_at(x - 1, y + 1) == a.bomb_at(x - 1, y + 1));
        assert(b.bomb_at(x, y + 1) == a.bomb_at(x, y + 1));
        assert(b.bomb_at(x + 1, y + 1) == a.bomb_at(x + 1, y + 1));
    }
}

/// Relies on rand::random_range over `0..bound`: a uniformly drawn value
/// within the range. It panics only on an empty range, which `bound > 0`
/// rules out.
#[verifier::external_body]
fn random_below(bound: usize) -> (r: usize)
    requires
        0 < bound,
    ensures
        r < bound,
{
    rand::random_range(0..bound)
}

impl Minesweeper {
    pub fn width(&self) -> (w: usize)
        ensures
            w == self.width,
    {
        self.width
    }

    pub fn height(&self) -> (h: usize)
        ensures
            h == self.height,
    {
        self.height
    }

    /// The row-major position of `(x, y)` in the cell vector.
    fn cell_index(&self, x: usize, y: usize) -> (i: usize)
        requires
            self.grid_wf(),
            x < self.width,
            y < self.height,
        ensures
            i == self.idx(x as int, y as int),
            i < self.cells@.len(),
    {
        proof {
            lemma_cell_index_bounds(self.width as int, self.height as int, x as int, y as int);
        }
        let n = self.cells.len();
        proof {
            assert((y as int) * (self.width as int) + x <= n);
        }
        y * self.width + x
    }

    pub fn get_cell(&self, x: usize, y: usize) -> (c: &Cell)
        requires
            self.grid_wf(),
            x < self.width,
            y < self.height,
        ensures
            *c == self.cell(x as int, y as int),
    {
        let i = self.cell_index(x, y);
        &self.cells[i]
    }

    /// Whether the in-bounds coordinate `(x, y)` holds a bomb.
    fn is_bomb_at(&self, x: usize, y: usize) -> (r: bool)
        requires
            self.grid_wf(),
            x < self.width,
            y < self.height,
        ensures
            r == self.bomb_at(x as int, y as int),
    {
        let i = self.cell_index(x, y);
        match self.cells[i].value {
            CellValue::Bomb => true,
            CellValue::Num(_) => false,
        }
    }

    /// Counts the bombs among the up-to-eight in-bounds neighbors of
    /// `(x, y)`.
    fn count_neighbors(&self, x: usize, y: usize) -> (n: i32)
        requires
            self.grid_wf(),
            x < self.width,
            y < self.height,
        ensures
            n as int == self.neighbor_bombs(x as int, y as int),
            0 <= n <= 8,
    {
        let mut n: i32 = 0;
        if x > 0 && y > 0 && self.is_bomb_at(x - 1, y - 1) {
            n = n + 1;
        }
        if y > 0 && self.is_bomb_at(x, y - 1) {
            n = n + 1;
        }
        if x + 1 < self.width && y > 0 && self.is_bomb_at(x + 1, y - 1) {
            n = n + 1;
        }
        if x > 0 && self.is_bomb_at(x - 1, y) {
            n = n + 1;
        }
        if x + 1 < self.width && self.is_bomb_at(x + 1, y) {
            n = n + 1;
        }
        if x > 0 && y + 1 < self.height && self.is_bomb_at(x - 1, y + 1) {
            n = n + 1;
        }
        if y + 1 < self.height && self.is_bomb_at(x, y + 1) {
            n = n + 1;
        }
        if x + 1 < self.width && y + 1 < self.height && self.is_bomb_at(x + 1, y + 1) {
            n = n + 1;
        }
        n
    }

    /// Builds a fresh board: every cell hidden and unflagged,
    /// `bombs_amount` bombs spread over coordinates drawn at random, and
    /// every other cell numbered with its count of bomb neighbors.
    ///
    /// Each bomb goes to a position drawn uniformly among the cells that
    /// hold no bomb yet, so no draw is wasted on an occupied cell and the
    /// loop needs exactly one draw per bomb.
    pub fn new(width: usize, height: usize, bombs_amount: u32) -> (b: Minesweeper)
        requires
            0 < width,
            0 < height,
            (width as int) * (height as int) <= usize::MAX as int,
            (bombs_amount as int) < (width as int) * (height as int),
        ensures
            b.wf(),
            b.width == width,
            b.height == height,
            b.bomb_count() == bombs_amount as int,
            forall|x: int, y: int|
                b.in_bounds(x, y) ==> !(#[trigger] b.cell(x, y)).visible && !b.cell(x, y).has_flag,
    {
        let total = width * height;
        let mut cells: Vec<Cell> = Vec::new();
        let mut i: usize = 0;
        while i < total
            invariant
                i <= total,
                cells@.len() == i as int,
                forall|j: int|
                    0 <= j < i ==> ((#[trigger] cells@[j]).value == CellValue::Num(0)
                        && !cells@[j].visible && !cells@[j].has_flag),
            decreases total - i,
        {
            cells.push(Cell::new(0));
            i += 1;
        }
        let mut board = Minesweeper { width, height, cells };
        proof {
            lemma_bombs_in_none(board.cells@);
        }
        let mut bombs_placed: u32 = 0;
        while bombs_placed < bombs_amount
            invariant
                board.width == width,
                board.height == height,
                board.grid_wf(),
                total == (width as int) * (height as int),
                bombs_placed <= bombs_amount,
                (bombs_amount as int) < (width as int) * (height as int),
                bombs_in(board.cells@) == bombs_placed as int,
                forall|j: int|
                    0 <= j < board.cells@.len() ==> (!(#[trigger] board.cells@[j]).visible
                        && !board.cells@[j].has_flag),
            decreases bombs_amount - bombs_placed,
        {
            let free = total - (bombs_placed as usize);
            let r = random_below(free);
            let k = nth_free_index(&board.cells, r);
            let mut c = board.cells[k];
            c.value = CellValue::Bomb;
            let ghost s0 = board.cells@;
            board.cells[k] = c;
            proof {
                lemma_bombs_in_update(s0, k as int, c);
            }
            bombs_placed += 1;
        }
        let mut y: usize = 0;
        while y < height
            invariant
                board.width == width,
                board.height == height,
                board.grid_wf(),
                y <= height,
                bombs_in(board.cells@) == bombs_amount as int,
                forall|j: int|
                    0 <= j < board.cells@.len() ==> (!(#[trigger] board.cells@[j]).visible
                        && !board.cells@[j].has_flag),
                forall|px: int, py: int|
                    0 <= px < width && 0 <= py < y && !((#[trigger] board.cell(px, py)).value
                        is Bomb) ==> board.cell(px, py).value == CellValue::Num(
                        board.neighbor_bombs(px, py) as i32,
                    ),
            decreases height - y,
        {
            let mut x: usize = 0;
            while x < width
                invariant
                    board.width == width,
                    board.height == height,
                    board.grid_wf(),
                    x <= width,
                    y < height,
                    bombs_in(board.cells@) == bombs_amount as int,
                    forall|j: int|
                        0 <= j < board.cells@.len() ==> (!(#[trigger] board.cells@[j]).visible
                            && !board.cells@[j].has_flag),
                    forall|px: int, py: int|
                        0 <= px < width && 0 <= py < y && !((#[trigger] board.cell(px, py)).value
                            is Bomb) ==> board.cell(px, py).value == CellValue::Num(
                            board.neighbor_bombs(px, py) as i32,
                        ),
                    forall|px: int, py: int|
                        0 <= px < x && py == y && !((#[trigger] board.cell(px, py)).value is Bomb)
                            ==> board.cell(px, py).value == CellValue::Num(
                            board.neighbor_bombs(px, py) as i32,
                        ),
                decreases width - x,
            {
                let i = board.cell_index(x, y);
                let c = board.cells[i];
                let is_b = match c.value {
                    CellValue::Bomb => true,
                    CellValue::Num(_) => false,
                };
                if !is_b {
                    let nb = board.count_neighbors(x, y);
                    let mut nc = c;
                    nc.value = CellValue::Num(nb);
                    let ghost b0 = board;
                    board.cells[i] = nc;
                    proof {
                        lemma_cell_update(b0, board, x as int, y as int, nc);
                        lemma_bombs_in_update(b0.cells@, i as int, nc);
                        assert forall|j: int|
                            0 <= j < b0.cells@.len() implies ((#[trigger] board.cells@[j]).value
                            is Bomb <==> b0.cells@[j].value is Bomb) by {}
                        lemma_same_bombs_same_counts(b0, board);
                    }
                }
                x += 1;
            }
            y += 1;
        }
        proof {
            assert forall|x: int, y: int| board.in_bounds(x, y) implies !(
            #[trigger] board.cell(x, y)).visible && !board.cell(x, y).has_flag by {
                lemma_cell_index_bounds(board.width as int, board.height as int, x, y);
            }
        }
        board
    }
}

/// Whether the coordinate `(x, y)` occurs in `s`.
pub open spec fn coord_in(s: Seq<(usize, usize)>, x: int, y: int) -> bool {
    exists|i: int| 0 <= i < s.len() && (#[trigger] s[i]).0 == x && s[i].1 == y
}

proof fn lemma_coord_in_push(s: Seq<(usize, usize)>, e: (usize, usize))
    ensures
        coord_in(s.push(e), e.0 as int, e.1 as int),
        forall|a: int, b: int| #[trigger] coord_in(s, a, b) ==> coord_in(s.push(e), a, b),
{
    assert(s.push(e)[s.len() as int] == e);
    assert forall|a: int, b: int| #[trigger] coord_in(s, a, b) implies coord_in(s.push(e), a, b) by {
        let i = choose|i: int| 0 <= i < s.len() && (#[trigger] s[i]).0 == a && s[i].1 == b;
        assert(s.push(e)[i] == s[i]);
    }
}

proof fn lemma_coord_in_concat(s1: Seq<(usize, usize)>, s2: Seq<(usize, usize)>)
    ensures
        forall|a: int, b: int|
            #[trigger] coord_in(s1 + s2, a, b) <==> (coord_in(s1, a, b) || coord_in(s2, a, b)),
{
    assert forall|a: int, b: int|
        #[trigger] coord_in(s1 + s2, a, b) <==> (coord_in(s1, a, b) || coord_in(s2, a, b)) by {
        if coord_in(s1 + s2, a, b) {
            let i = choose|i: int|
                0 <= i < (s1 + s2).len() && (#[trigger] (s1 + s2)[i]).0 == a && (s1 + s2)[i].1 == b;
            if i < s1.len() {
                assert((s1 + s2)[i] == s1[i]);
            } else {
                assert((s1 + s2)[i] == s2[i - s1.len()]);
            }
        }
        if coord_in(s1, a, b) {
            let i = choose|i: int| 0 <= i < s1.len() && (#[trigger] s1[i]).0 == a && s1[i].1 == b;
            assert((s1 + s2)[i] == s1[i]);
        }
        if coord_in(s2, a, b) {
            let i = choose|i: int| 0 <= i < s2.len() && (#[trigger] s2[i]).0 == a && s2[i].1 == b;
            assert((s1 + s2)[i + s1.len()] == s2[i]);
        }
    }
}

proof fn lemma_coord_in_drop_last(s: Seq<(usize, usize)>, a: int, b: int)
    requires
        s.len() > 0,
        coord_in(s, a, b),
    ensures
        coord_in(s.drop_last(), a, b) || (a == s.last().0 && b == s.last().1),
{
    let i = choose|i: int| 0 <= i < s.len() && (#[trigger] s[i]).0 == a && s[i].1 == b;
    if i < s.len() - 1 {
        assert(s.drop_last()[i] == s[i]);
    }
}

proof fn lemma_reveals_self(b: Minesweeper, x: int, y: int)
    requires
        b.in_bounds(x, y),
    ensures
        b.reveals(x, y, x, y),
{
    let p = seq![(x, y)];
    assert(p[0] == (x, y));
    assert(b.path_from_to(p, x, y, x, y));
}

/// A reveal that reaches a zero-numbered cell also reaches each of its
/// in-bounds neighbors: the walk grows by one step.
proof fn lemma_reveals_step(b: Minesweeper, x: int, y: int, cx: int, cy: int, nx: int, ny: int)
    requires
        b.reveals(x, y, cx, cy),
        b.in_bounds(cx, cy),
        b.in_bounds(nx, ny),
        b.cell(cx, cy).value == CellValue::Num(0),
        is_neighbor(cx, cy, nx, ny),
    ensures
        b.reveals(x, y, nx, ny),
{
    let p = choose|p: Seq<(int, int)>| b.path_from_to(p, x, y, cx, cy);
    let q = p.push((nx, ny));
    assert forall|i: int| 0 <= i < q.len() implies b.in_bounds((#[trigger] q[i]).0, q[i].1) by {
        if i < p.len() {
            assert(q[i] == p[i]);
        } else {
            assert(q[i] == (nx, ny));
        }
    }
    assert forall|i: int|
        0 <= i < q.len() - 1 implies is_neighbor((#[trigger] q[i]).0, q[i].1, q[i + 1].0, q[i + 1].1) by {
        assert(q[i] == p[i]);
        if i < p.len() - 1 {
            assert(q[i + 1] == p[i + 1]);
        } else {
            assert(q[i] == p[p.len() - 1]);
            assert(q[i + 1] == (nx, ny));
        }
    }
    assert forall|i: int|
        0 <= i < q.len() - 1 implies b.cell((#[trigger] q[i]).0, q[i].1).value == CellValue::Num(0) by {
        assert(q[i] == p[i]);
        if i == p.len() - 1 {
            assert(p[i] == (cx, cy));
        }
    }
    assert(q[0] == p[0]);
    assert(q[q.len() - 1] == (nx, ny));
    assert(b.path_from_to(q, x, y, nx, ny));
}

/// On a board whose revealed zero regions are closed under adjacency,
/// every walk that starts on a visible cell ends on a visible cell.
proof fn lemma_path_all_visible(b: Minesweeper, p: Seq<(int, int)>)
    requires
        b.zero_closed(),
        b.path_ok(p),
        b.cell(p[0].0, p[0].1).visible,
    ensures
        b.cell(p[p.len() - 1].0, p[p.len() - 1].1).visible,
    decreases p.len(),
{
    if p.len() > 1 {
        let q = p.subrange(1, p.len() as int);
        assert forall|i: int| 0 <= i < q.len() implies b.in_bounds((#[trigger] q[i]).0, q[i].1) by {
            assert(q[i] == p[i + 1]);
        }
        assert forall|i: int|
            0 <= i < q.len() - 1 implies is_neighbor(
            (#[trigger] q[i]).0,
            q[i].1,
            q[i + 1].0,
            q[i + 1].1,
        ) by {
            assert(q[i] == p[i + 1]);
            assert(q[i + 1] == p[i + 2]);
        }
        assert forall|i: int|
            0 <= i < q.len() - 1 implies b.cell((#[trigger] q[i]).0, q[i].1).value == CellValue::Num(
            0,
        ) by {
            assert(q[i] == p[i + 1]);
        }
        assert(is_neighbor(p[0].0, p[0].1, p[1].0, p[1].1));
        assert(b.cell(p[1].0, p[1].1).visible);
        assert(q[0] == p[1]);
        lemma_path_all_visible(b, q);
        assert(q[q.len() - 1] == p[p.len() - 1]);
    }
}

/// Walks depend on cell values alone, so they carry over to any board
/// that holds the same values.
proof fn lemma_path_ok_same_values(a: Minesweeper, b: Minesweeper, p: Seq<(int, int)>)
    requires
        a.width == b.width,
        a.height == b.height,
        same_values(a, b),
        a.path_ok(p),
    ensures
        b.path_ok(p),
{
    assert forall|i: int| 0 <= i < p.len() implies b.in_bounds((#[trigger] p[i]).0, p[i].1) by {
        assert(a.in_bounds(p[i].0, p[i].1));
    }
    assert forall|i: int|
        0 <= i < p.len() - 1 implies b.cell((#[trigger] p[i]).0, p[i].1).value == CellValue::Num(0) by {
        assert(a.in_bounds(p[i].0, p[i].1));
        assert(b.cell(p[i].0, p[i].1).value == a.cell(p[i].0, p[i].1).value);
    }
}

proof fn lemma_reveals_same_values(a: Minesweeper, b: Minesweeper, x: int, y: int, tx: int, ty: int)
    requires
        a.width == b.width,
        a.height == b.height,
        same_values(a, b),
        a.reveals(x, y, tx, ty),
    ensures
        b.reveals(x, y, tx, ty),
{
    let p = choose|p: Seq<(int, int)>| a.path_from_to(p, x, y, tx, ty);
    lemma_path_ok_same_values(a, b, p);
    assert(b.path_from_to(p, x, y, tx, ty));
}

/// Correct neighbor numbers carry over to any board that holds the same
/// values.
proof fn lemma_numbers_ok_same_values(a: Minesweeper, b: Minesweeper)
    requires
        a.width == b.width,
        a.height == b.height,
        same_values(a, b),
        a.numbers_ok(),
    ensures
        b.numbers_ok(),
{
    assert forall|nx: int, ny: int| #[trigger] b.bomb_at(nx, ny) == a.bomb_at(nx, ny) by {
        if a.in_bounds(nx, ny) {
            assert(b.cell(nx, ny).value == a.cell(nx, ny).value);
        }
    }
    assert forall|x: int, y: int| #[trigger] b.neighbor_bombs(x, y) == a.neighbor_bombs(x, y) by {
        assert(b.bomb_at(x - 1, y - 1) == a.bomb_at(x - 1, y - 1));
        assert(b.bomb_at(x, y - 1) == a.bomb_at(x, y - 1));
        assert(b.bomb_at(x + 1, y - 1) == a.bomb_at(x + 1, y - 1));
        assert(b.bomb_at(x - 1, y) == a.bomb_at(x - 1, y));
        assert(b.bomb_at(x + 1, y) == a.bomb_at(x + 1, y));
        assert(b.bomb_at(x - 1, y + 1) == a.bomb_at(x - 1, y + 1));
        assert(b.bomb_at(x, y + 1) == a.bomb_at(x, y + 1));
        assert(b.bomb_at(x + 1, y + 1) == a.bomb_at(x + 1, y + 1));
    }
    assert forall|x: int, y: int|
        b.in_bounds(x, y) && !((#[trigger] b.cell(x, y)).value is Bomb) implies b.cell(x, y).value
        == CellValue::Num(b.neighbor_bombs(x, y) as i32) by {
        assert(b.cell(x, y).value == a.cell(x, y).value);
        assert(b.neighbor_bombs(x, y) == a.neighbor_bombs(x, y));
    }
}

impl Minesweeper {
    /// Reveals `(x, y)`. The cell becomes visible and loses its flag; when
    /// it is a zero-numbered cell, visibility floods through its whole
    /// connected zero region and the ring of cells bordering that region.
    /// Exactly the cells reachable from `(x, y)` join the visible set.
    pub fn make_cell_visible(&mut self, x: usize, y: usize)
        requires
            old(self).wf(),
            x < old(self).width,
            y < old(self).height,
        ensures
            final(self).wf(),
            reveal_transition(*old(self), *final(self), x as int, y as int),
            final(self).cell(x as int, y as int).visible,
            !final(self).cell(x as int, y as int).has_flag,
    {
        let ghost pre = *self;
        let mut stack: Vec<(usize, usize)> = Vec::new();
        stack.push((x, y));
        proof {
            lemma_reveals_self(pre, x as int, y as int);
            lemma_visibles_in_bounds(self.cells@);
            assert(stack@[0] == (x, y));
            assert(coord_in(stack@, x as int, y as int));
        }
        while stack.len() > 0
            invariant
                pre.wf(),
                x < pre.width,
                y < pre.height,
                self.width == pre.width,
                self.height == pre.height,
                self.cells@.len() == pre.cells@.len(),
                self.grid_wf(),
                same_values(pre, *self),
                0 <= visibles_in(self.cells@) <= self.cells@.len(),
                forall|i: int|
                    0 <= i < stack@.len() ==> (pre.in_bounds(
                        (#[trigger] stack@[i]).0 as int,
                        stack@[i].1 as int,
                    ) && pre.reveals(x as int, y as int, stack@[i].0 as int, stack@[i].1 as int)),
                forall|tx: int, ty: int|
                    pre.in_bounds(tx, ty) && (#[trigger] pre.cell(tx, ty)).visible ==> self.cell(
                        tx,
                        ty,
                    ).visible,
                forall|tx: int, ty: int|
                    pre.in_bounds(tx, ty) && (#[trigger] self.cell(tx, ty)).visible ==> (pre.cell(
                        tx,
                        ty,
                    ).visible || pre.reveals(x as int, y as int, tx, ty)),
                forall|tx: int, ty: int|
                    pre.in_bounds(tx, ty) ==> (#[trigger] self.cell(tx, ty)).has_flag == (pre.cell(
                        tx,
                        ty,
                    ).has_flag && !self.cell(tx, ty).visible),
                self.cell(x as int, y as int).visible || coord_in(stack@, x as int, y as int),
                forall|cx: int, cy: int, nx: int, ny: int|
                    pre.in_bounds(cx, cy) && pre.in_bounds(nx, ny) && #[trigger] is_neighbor(
                        cx,
                        cy,
                        nx,
                        ny,
                    ) && self.cell(cx, cy).visible && self.cell(cx, cy).value == CellValue::Num(0)
                        ==> (self.cell(nx, ny).visible || coord_in(stack@, nx, ny)),
            decreases self.cells@.len() - visibles_in(self.cells@), stack@.len(),
        {
            let ghost s_pre = stack@;
            let ghost b_pre = *self;
            let copt = stack.pop();
            let cur = copt.unwrap();
            let cx = cur.0;
            let cy = cur.1;
            proof {
                assert(cur == s_pre[s_pre.len() - 1]);
                assert(stack@ =~= s_pre.drop_last());
                assert(pre.in_bounds(cx as int, cy as int));
            }
            let i = self.cell_index(cx, cy);
            let c = self.cells[i];
            proof {
                assert(c == self.cell(cx as int, cy as int));
            }
            if !c.visible {
                let mut nc = c;
                nc.visible = true;
                nc.has_flag = false;
                self.cells[i] = nc;
                proof {
                    lemma_cell_update(b_pre, *self, cx as int, cy as int, nc);
                    lemma_visibles_in_update(b_pre.cells@, i as int, nc);
                    lemma_visibles_in_bounds(self.cells@);
                    assert(self.cell(cx as int, cy as int) == nc);
                    assert forall|tx: int, ty: int| pre.in_bounds(tx, ty) implies (
                    #[trigger] self.cell(tx, ty)).value == pre.cell(tx, ty).value by {
                        if !(tx == cx as int && ty == cy as int) {
                            assert(self.cell(tx, ty) == b_pre.cell(tx, ty));
                        }
                    }
                    assert forall|tx: int, ty: int|
                        pre.in_bounds(tx, ty) && (#[trigger] b_pre.cell(tx, ty)).visible implies self.cell(
                        tx,
                        ty,
                    ).visible by {
                        if !(tx == cx as int && ty == cy as int) {
                            assert(self.cell(tx, ty) == b_pre.cell(tx, ty));
                        }
                    }
                }
                let is_zero = match c.value {
                    CellValue::Num(0) => true,
                    _ => false,
                };
                if is_zero {
                    let mut ns = neighbors(cx, cy, self.width, self.height);
                    let ghost ns_seq = ns@;
                    let ghost s_mid = stack@;
                    stack.append(&mut ns);
                    proof {
                        assert(stack@ == s_mid + ns_seq);
                        lemma_coord_in_concat(s_mid, ns_seq);
                        assert(pre.cell(cx as int, cy as int).value == CellValue::Num(0));
                        assert forall|j: int|
                            0 <= j < stack@.len() implies (pre.in_bounds(
                            (#[trigger] stack@[j]).0 as int,
                            stack@[j].1 as int,
                        ) && pre.reveals(
                            x as int,
                            y as int,
                            stack@[j].0 as int,
                            stack@[j].1 as int,
                        )) by {
                            if j < s_mid.len() {
                                assert(stack@[j] == s_mid[j]);
                                assert(s_mid[j] == s_pre[j]);
                            } else {
                                assert(stack@[j] == ns_seq[j - s_mid.len()]);
                                let e = ns_seq[j - s_mid.len()];
                                assert(is_neighbor(cx as int, cy as int, e.0 as int, e.1 as int));
                                lemma_reveals_step(
                                    pre,
                                    x as int,
                                    y as int,
                                    cx as int,
                                    cy as int,
                                    e.0 as int,
                                    e.1 as int,
                                );
                            }
                        }
                        assert forall|qx: int, qy: int, nx: int, ny: int|
                            pre.in_bounds(qx, qy) && pre.in_bounds(nx, ny) && #[trigger] is_neighbor(
                            qx,
                            qy,
                            nx,
                            ny,
                        ) && self.cell(qx, qy).visible && self.cell(qx, qy).value == CellValue::Num(
                            0,
                        ) implies (self.cell(nx, ny).visible || coord_in(stack@, nx, ny)) by {
                            if qx == cx as int && qy == cy as int {
                                assert(coord_in(ns_seq, nx, ny));
                            } else {
                                assert(self.cell(qx, qy) == b_pre.cell(qx, qy));
                                if !b_pre.cell(nx, ny).visible {
                                    assert(coord_in(s_pre, nx, ny));
                                    lemma_coord_in_drop_last(s_pre, nx, ny);
                                    if nx == cx as int && ny == cy as int {
                                        assert(self.cell(nx, ny).visible);
                                    } else {
                                        assert(coord_in(s_mid, nx, ny));
                                    }
                                } else {
                                    if !(nx == cx as int && ny == cy as int) {
                                        assert(self.cell(nx, ny) == b_pre.cell(nx, ny));
                                    }
                                }
                            }
                        }
                        if !self.cell(x as int, y as int).visible {
                            assert(coord_in(s_pre, x as int, y as int));
                            lemma_coord_in_drop_last(s_pre, x as int, y as int);
                            assert(coord_in(stack@, x as int, y as int));
                        }
                    }
                } else {
                    proof {
                        assert forall|qx: int, qy: int, nx: int, ny: int|
                            pre.in_bounds(qx, qy) && pre.in_bounds(nx, ny) && #[trigger] is_neighbor(
                            qx,
                            qy,
                            nx,
                            ny,
                        ) && self.cell(qx, qy).visible && self.cell(qx, qy).value == CellValue::Num(
                            0,
                        ) implies (self.cell(nx, ny).visible || coord_in(stack@, nx, ny)) by {
                            assert(!(qx == cx as int && qy == cy as int));
                            assert(self.cell(qx, qy) == b_pre.cell(qx, qy));
                            if !b_pre.cell(nx, ny).visible {
                                assert(coord_in(s_pre, nx, ny));
                                lemma_coord_in_drop_last(s_pre, nx, ny);
                                if nx == cx as int && ny == cy as int {
                                    assert(self.cell(nx, ny).visible);
                                }
                            } else {
                                if !(nx == cx as int && ny == cy as int) {
                                    assert(self.cell(nx, ny) == b_pre.cell(nx, ny));
                                }
                            }
                        }
                        if !self.cell(x as int, y as int).visible {
                            assert(coord_in(s_pre, x as int, y as int));
                            lemma_coord_in_drop_last(s_pre, x as int, y as int);
                        }
                    }
                }
            } else {
                proof {
                    assert forall|qx: int, qy: int, nx: int, ny: int|
                        pre.in_bounds(qx, qy) && pre.in_bounds(nx, ny) && #[trigger] is_neighbor(
                        qx,
                        qy,
                        nx,
                        ny,
                    ) && self.cell(qx, qy).visible && self.cell(qx, qy).value == CellValue::Num(0)
                        implies (self.cell(nx, ny).visible || coord_in(stack@, nx, ny)) by {
                        if !self.cell(nx, ny).visible {
                            assert(coord_in(s_pre, nx, ny));
                            lemma_coord_in_drop_last(s_pre, nx, ny);
                            if nx == cx as int && ny == cy as int {
                                assert(self.cell(cx as int, cy as int).visible);
                            }
                        }
                    }
                    if !self.cell(x as int, y as int).visible {
                        assert(coord_in(s_pre, x as int, y as int));
                        lemma_coord_in_drop_last(s_pre, x as int, y as int);
                        assert(!(x as int == cx as int && y as int == cy as int));
                    }
                }
            }
        }
        proof {
            assert(self.cell(x as int, y as int).visible);
            assert(self.zero_closed()) by {
                assert forall|cx: int, cy: int, nx: int, ny: int|
                    self.in_bounds(cx, cy) && self.in_bounds(nx, ny) && #[trigger] is_neighbor(
                    cx,
                    cy,
                    nx,
                    ny,
                ) && self.cell(cx, cy).visible && self.cell(cx, cy).value == CellValue::Num(0)
                    implies self.cell(nx, ny).visible by {
                    assert(!coord_in(stack@, nx, ny));
                }
            }
            assert(self.flags_ok()) by {
                assert forall|tx: int, ty: int|
                    self.in_bounds(tx, ty) && (#[trigger] self.cell(tx, ty)).visible implies !self.cell(
                    tx,
                    ty,
                ).has_flag by {
                    assert(pre.in_bounds(tx, ty));
                }
            }
            lemma_numbers_ok_same_values(pre, *self);
            assert forall|tx: int, ty: int|
                pre.in_bounds(tx, ty) && pre.reveals(x as int, y as int, tx, ty) implies (
            #[trigger] self.cell(tx, ty)).visible by {
                let p = choose|p: Seq<(int, int)>|
                    pre.path_from_to(p, x as int, y as int, tx, ty);
                lemma_path_ok_same_values(pre, *self, p);
                lemma_path_all_visible(*self, p);
            }
        }
    }
}

impl Minesweeper {
    /// Reveals every cell of the grid, row by row. Afterwards the whole
    /// board is visible and no flag is left anywhere.
    pub fn make_all_cells_visible(&mut self)
        requires
            old(self).wf(),
        ensures
            final(self).wf(),
            final(self).width == old(self).width,
            final(self).height == old(self).height,
            same_dims(*old(self), *final(self)),
            same_values(*old(self), *final(self)),
            forall|x: int, y: int|
                final(self).in_bounds(x, y) ==> (#[trigger] final(self).cell(x, y)).visible,
            forall|x: int, y: int|
                final(self).in_bounds(x, y) ==> !(#[trigger] final(self).cell(x, y)).has_flag,
    {
        let ghost pre = *self;
        let w = self.width;
        let h = self.height;
        let mut y: usize = 0;
        while y < h
            invariant
                pre.wf(),
                self.wf(),
                w == self.width,
                h == self.height,
                same_dims(pre, *self),
                same_values(pre, *self),
                y <= h,
                forall|px: int, py: int|
                    0 <= px < w && 0 <= py < y ==> (#[trigger] self.cell(px, py)).visible,
            decreases h - y,
        {
            let mut x: usize = 0;
            while x < w
                invariant
                    pre.wf(),
                    self.wf(),
                    w == self.width,
                    h == self.height,
                    same_dims(pre, *self),
                    same_values(pre, *self),
                    x <= w,
                    y < h,
                    forall|px: int, py: int|
                        0 <= px < w && 0 <= py < y ==> (#[trigger] self.cell(px, py)).visible,
                    forall|px: int, py: int|
                        0 <= px < x && py == y ==> (#[trigger] self.cell(px, py)).visible,
                decreases w - x,
            {
                let ghost b0 = *self;
                self.make_cell_visible(x, y);
                proof {
                    assert forall|tx: int, ty: int| pre.in_bounds(tx, ty) implies (
                    #[trigger] self.cell(tx, ty)).value == pre.cell(tx, ty).value by {
                        assert(self.cell(tx, ty).value == b0.cell(tx, ty).value);
                    }
                    assert forall|px: int, py: int|
                        0 <= px < w && (0 <= py < y || (py == y && 0 <= px <= x))
                            implies (#[trigger] self.cell(px, py)).visible by {
                        if px == x as int && py == y as int {
                            assert(self.cell(px, py).visible);
                        } else {
                            assert(b0.cell(px, py).visible ==> self.cell(px, py).visible);
                        }
                    }
                }
                x = x + 1;
            }
            y = y + 1;
        }
        proof {
            assert forall|px: int, py: int| self.in_bounds(px, py) implies !(
            #[trigger] self.cell(px, py)).has_flag by {
                assert(self.cell(px, py).visible);
            }
        }
    }

    /// Flips the flag on a hidden cell; on a revealed cell it does
    /// nothing at all.
    pub fn toggle_flag_in_cell(&mut self, x: usize, y: usize)
        requires
            old(self).wf(),
            x < old(self).width,
            y < old(self).height,
        ensures
            final(self).wf(),
            final(self).width == old(self).width,
            final(self).height == old(self).height,
            old(self).cell(x as int, y as int).visible ==> *final(self) == *old(self),
            !old(self).cell(x as int, y as int).visible ==> {
                &&& final(self).cell(x as int, y as int).has_flag == !old(self).cell(
                    x as int,
                    y as int,
                ).has_flag
                &&& final(self).cell(x as int, y as int).value == old(self).cell(
                    x as int,
                    y as int,
                ).value
                &&& !final(self).cell(x as int, y as int).visible
                &&& forall|tx: int, ty: int|
                    old(self).in_bounds(tx, ty) && !(tx == x as int && ty == y as int)
                        ==> #[trigger] final(self).cell(tx, ty) == old(self).cell(tx, ty)
            },
    {
        let i = self.cell_index(x, y);
        let c = self.cells[i];
        if !c.visible {
            let mut nc = c;
            nc.has_flag = !c.has_flag;
            let ghost b0 = *self;
            self.cells[i] = nc;
            proof {
                lemma_cell_update(b0, *self, x as int, y as int, nc);
                assert(self.cell(x as int, y as int) == nc);
                assert forall|tx: int, ty: int| b0.in_bounds(tx, ty) implies (
                #[trigger] self.cell(tx, ty)).value == b0.cell(tx, ty).value by {
                    if !(tx == x as int && ty == y as int) {
                        assert(self.cell(tx, ty) == b0.cell(tx, ty));
                    }
                }
                lemma_numbers_ok_same_values(b0, *self);
                assert forall|tx: int, ty: int|
                    self.in_bounds(tx, ty) && (#[trigger] self.cell(tx, ty)).visible implies !self.cell(
                    tx,
                    ty,
                ).has_flag by {
                    if !(tx == x as int && ty == y as int) {
                        assert(self.cell(tx, ty) == b0.cell(tx, ty));
                    }
                }
                assert forall|qx: int, qy: int, nx: int, ny: int|
                    self.in_bounds(qx, qy) && self.in_bounds(nx, ny) && #[trigger] is_neighbor(
                    qx,
                    qy,
                    nx,
                    ny,
                ) && self.cell(qx, qy).visible && self.cell(qx, qy).value == CellValue::Num(0)
                    implies self.cell(nx, ny).visible by {
                    if !(qx == x as int && qy == y as int) {
                        assert(self.cell(qx, qy) == b0.cell(qx, qy));
                    }
                    assert(b0.cell(nx, ny).visible);
                    if !(nx == x as int && ny == y as int) {
                        assert(self.cell(nx, ny) == b0.cell(nx, ny));
                    }
                }
            }
        }
    }
}

/// Law: revealing a cell twice in a row changes nothing the second time.
/// After a reveal of `(x, y)` turned board `b0` into `b1`, a further
/// reveal of the same `(x, y)` turning `b1` into `b2` leaves every cell,
/// and with it the set of visible cells, exactly as it was in `b1`.
pub proof fn lemma_reveal_idempotent(
    b0: Minesweeper,
    b1: Minesweeper,
    b2: Minesweeper,
    x: int,
    y: int,
)
    requires
        b0.wf(),
        b0.in_bounds(x, y),
        reveal_transition(b0, b1, x, y),
        reveal_transition(b1, b2, x, y),
    ensures
        forall|tx: int, ty: int|
            b0.in_bounds(tx, ty) ==> #[trigger] b2.cell(tx, ty) == b1.cell(tx, ty),
{
    assert forall|tx: int, ty: int|
        b0.in_bounds(tx, ty) implies #[trigger] b2.cell(tx, ty) == b1.cell(tx, ty) by {
        if b1.reveals(x, y, tx, ty) {
            assert(same_values(b1, b0)) by {
                assert forall|ax: int, ay: int| b1.in_bounds(ax, ay) implies (
                #[trigger] b0.cell(ax, ay)).value == b1.cell(ax, ay).value by {
                    assert(b1.cell(ax, ay).value == b0.cell(ax, ay).value);
                }
            }
            lemma_reveals_same_values(b1, b0, x, y, tx, ty);
            assert(b1.cell(tx, ty).visible);
        }
        assert(b2.cell(tx, ty).visible == b1.cell(tx, ty).visible);
        assert(b2.cell(tx, ty).value == b1.cell(tx, ty).value);
        assert(b2.cell(tx, ty).has_flag == b1.cell(tx, ty).has_flag);
    }
}

proof fn lemma_bombs_in_same(s1: Seq<Cell>, s2: Seq<Cell>)
    requires
        s1.len() == s2.len(),
        forall|j: int|
            0 <= j < s1.len() ==> ((#[trigger] s1[j]).value is Bomb <==> s2[j].value is Bomb),
    ensures
        bombs_in(s1) == bombs_in(s2),
    decreases s1.len(),
{
    if s1.len() > 0 {
        assert forall|j: int|
            0 <= j < s1.drop_last().len() implies ((#[trigger] s1.drop_last()[j]).value is Bomb
            <==> s2.drop_last()[j].value is Bomb) by {
            assert(s1.drop_last()[j] == s1[j]);
            assert(s2.drop_last()[j] == s2[j]);
        }
        lemma_bombs_in_same(s1.drop_last(), s2.drop_last());
        assert(s1.last() == s1[s1.len() - 1]);
        assert(s2.last() == s2[s1.len() - 1]);
    }
}

/// Law: boards that hold the same value in every cell hold the same
/// number of bombs. Revealing cells and toggling flags leave every value
/// as it was, so they never change the bomb count a board was built
/// with.
pub proof fn lemma_same_values_same_bomb_count(a: Minesweeper, b: Minesweeper)
    requires
        a.grid_wf(),
        same_dims(a, b),
        same_values(a, b),
    ensures
        b.bomb_count() == a.bomb_count(),
{
    let w = a.width as int;
    let h = a.height as int;
    assert forall|j: int|
        0 <= j < a.cells@.len() implies ((#[trigger] a.cells@[j]).value is Bomb
        <==> b.cells@[j].value is Bomb) by {
        let x = j % w;
        let y = j / w;
        assert(j == y * w + x && 0 <= x < w && 0 <= y < h) by (nonlinear_arith)
            requires
                0 <= j < w * h,
                0 < w,
                0 < h,
                x == j % w,
                y == j / w,
        ;
        assert(a.cell(x, y) == a.cells@[j]);
        assert(b.cell(x, y) == b.cells@[j]);
        assert(b.cell(x, y).value == a.cell(x, y).value);
    }
    lemma_bombs_in_same(a.cells@, b.cells@);
}

/// The in-bounds neighbors of `(x, y)` on a `w` by `h` grid, each listed
/// once.
fn neighbors(x: usize, y: usize, w: usize, h: usize) -> (r: Vec<(usize, usize)>)
    requires
        x < w,
        y < h,
    ensures
        forall|i: int|
            0 <= i < r@.len() ==> (is_neighbor(
                x as int,
                y as int,
                (#[trigger] r@[i]).0 as int,
                r@[i].1 as int,
            ) && r@[i].0 < w && r@[i].1 < h),
        forall|nx: int, ny: int|
            0 <= nx < w && 0 <= ny < h && #[trigger] is_neighbor(x as int, y as int, nx, ny)
                ==> coord_in(r@, nx, ny),
{
    let mut r: Vec<(usize, usize)> = Vec::new();
    if x > 0 {
        let ghost s = r@;
        let e = (x - 1, y);
        r.push(e);
        proof {
            lemma_coord_in_push(s, e);
        }
    }
    if y > 0 {
        let ghost s = r@;
        let e = (x, y - 1);
        r.push(e);
        proof {
            lemma_coord_in_push(s, e);
        }
    }
    if x + 1 < w {
        let ghost s = r@;
        let e = (x + 1, y);
        r.push(e);
        proof {
            lemma_coord_in_push(s, e);
        }
    }
    if y + 1 < h {
        let ghost s = r@;
        let e = (x, y + 1);
        r.push(e);
        proof {
            lemma_coord_in_push(s, e);
        }
    }
    if y + 1 < h && x > 0 {
        let ghost s = r@;
        let e = (x - 1, y + 1);
        r.push(e);
        proof {
            lemma_coord_in_push(s, e);
        }
    }
    if y > 0 && x + 1 < w {
        let ghost s = r@;
        let e = (x + 1, y - 1);
        r.push(e);
        proof {
            lemma_coord_in_push(s, e);
        }
    }
    if y > 0 && x > 0 {
        let ghost s = r@;
        let e = (x - 1, y - 1);
        r.push(e);
        proof {
            lemma_coord_in_push(s, e);
        }
    }
    if y + 1 < h && x + 1 < w {
        let ghost s = r@;
        let e = (x + 1, y + 1);
        r.push(e);
        proof {
            lemma_coord_in_push(s, e);
        }
    }
    r
}

/// The index, in grid order, of the `r`-th cell that holds no bomb yet.
fn nth_free_index(cells: &Vec<Cell>, r: usize) -> (k: usize)
    requires
        (r as int) < cells@.len() - bombs_in(cells@),
    ensures
        k < cells@.len(),
        !(cells@[k as int].value is Bomb),
{
    let n = cells.len();
    let mut k: usize = 0;
    let mut seen: usize = 0;
    while k < n
        invariant
            n == cells@.len(),
            k <= n,
            seen as int == (k as int) - bombs_in(cells@.take(k as int)),
            seen <= r,
            (r as int) < cells@.len() - bombs_in(cells@),
        decreases n - k,
    {
        let c = cells[k];
        let is_free = match c.value {
            CellValue::Bomb => false,
            CellValue::Num(_) => true,
        };
        proof {
            lemma_bombs_in_take_step(cells@, k as int);
        }
        if is_free {
            if seen == r {
                return k;
            }
            seen = seen + 1;
        }
        k = k + 1;
    }
    proof {
        assert(cells@.take(n as int) =~= cells@);
        assert(false);
    }
    0
}

} // verus!
