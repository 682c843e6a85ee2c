//! The minesweeper guest: its board, its input, and the systems that set up
//! and update the board.
use vstd::prelude::*;

verus! {

/// Row stride of the board.
pub const MAX_WIDTH: usize = 32;
/// Most rows of the board.
pub const MAX_HEIGHT: usize = 16;
/// Cells of the board array.
pub const MAX_CELLS: usize = 512;
/// Resource id of the board.
pub const GRID_RES_ID: i32 = 100;
/// Resource id of the input.
pub const INPUT_RES_ID: i32 = 101;

/// One board cell.
#[derive(Clone, Copy, Debug, PartialEq, Eq, Structural)]
pub struct Cell {
    pub is_mine: bool,
    pub is_revealed: bool,
    pub is_flagged: bool,
    pub neighbors: u8,
}

impl Default for Cell {
    /// A hidden, unflagged cell without a mine.
    fn default() -> (r: Self)
        ensures
            r == (Cell { is_mine: false, is_revealed: false, is_flagged: false, neighbors: 0 }),
    {
        Cell { is_mine: false, is_revealed: false, is_flagged: false, neighbors: 0 }
    }
}

/// The board: `width` by `height` cells at row stride 32, and the cursor.
pub struct GameGrid {
    pub width: i32,
    pub height: i32,
    pub cursor_x: i32,
    pub cursor_y: i32,
    pub game_over: bool,
    pub cells: [Cell; 512],
}

/// One frame of player input.
#[derive(Clone, Copy, Debug, PartialEq, Eq, Structural)]
pub struct InputState {
    pub dx: i32,
    pub dy: i32,
    pub reveal: bool,
    pub flag: bool,
}

/// The cell at column `x`, row `y`.
pub open spec fn cell_at(s: Seq<Cell>, x: int, y: int) -> Cell {
    s[y * 32 + x]
}

/// Whether `(x, y)` lies on a `w` by `h` board.
pub open spec fn on_board(w: int, h: int, x: int, y: int) -> bool {
    0 <= x < w && 0 <= y < h
}

/// Number of cells of `s` that satisfy `f`.
pub open spec fn count_where(s: Seq<Cell>, f: spec_fn(Cell) -> bool) -> nat
    decreases s.len(),
{
    if s.len() == 0 {
        0
    } else {
        count_where(s.drop_last(), f) + if f(s.last()) { 1nat } else { 0nat }
    }
}

/// Number of hidden cells.
pub open spec fn hidden_count(s: Seq<Cell>) -> nat {
    count_where(s, |c: Cell| !c.is_revealed)
}

/// `b` is `a` with some more cells revealed, none of them flagged.
pub open spec fn reveal_only(a: Seq<Cell>, b: Seq<Cell>) -> bool {
    &&& a.len() == b.len()
    &&& forall|i: int| 0 <= i < a.len() ==> {
        &&& (#[trigger] b[i]).is_mine == a[i].is_mine
        &&& b[i].is_flagged == a[i].is_flagged
        &&& b[i].neighbors == a[i].neighbors
        &&& (a[i].is_revealed ==> b[i].is_revealed)
        &&& (b[i].is_revealed && !a[i].is_revealed ==> !a[i].is_flagged)
    }
}

/// Every on-board neighbour of `(x, y)` is revealed or flagged.
pub open spec fn settled(s: Seq<Cell>, w: int, h: int, x: int, y: int) -> bool {
    forall|nx: int, ny: int|
        on_board(w, h, nx, ny) && x - 1 <= nx <= x + 1 && y - 1 <= ny <= y + 1
            ==> (#[trigger] cell_at(s, nx, ny)).is_revealed || cell_at(s, nx, ny).is_flagged
}

/// Every blank cell revealed between `a` and `b` has all its neighbours
/// revealed or flagged in `b`: the reveal spread as far as it must.
pub open spec fn closed(a: Seq<Cell>, b: Seq<Cell>, w: int, h: int) -> bool {
    forall|x: int, y: int|
        on_board(w, h, x, y) && (#[trigger] cell_at(b, x, y)).is_revealed && !cell_at(a, x, y).is_revealed
            && cell_at(b, x, y).neighbors == 0 ==> settled(b, w, h, x, y)
}

/// Neighbours of `(x, y)` visited before offset `(ly, lx)` in row-major order
/// are revealed or flagged.
pub open spec fn visited_before(s: Seq<Cell>, w: int, h: int, x: int, y: int, ly: int, lx: int) -> bool {
    forall|nx: int, ny: int|
        on_board(w, h, nx, ny) && x - 1 <= nx <= x + 1 && y - 1 <= ny <= y + 1
            && (ny - y < ly || (ny - y == ly && nx - x < lx))
            ==> (#[trigger] cell_at(s, nx, ny)).is_revealed || cell_at(s, nx, ny).is_flagged
}

/// Every mine-free board cell counts exactly the mines around it.
pub open spec fn counts_consistent(s: Seq<Cell>, w: int, h: int) -> bool {
    forall|x: int, y: int|
        on_board(w, h, x, y) && !(#[trigger] cell_at(s, x, y)).is_mine
            ==> cell_at(s, x, y).neighbors == adjacent_mines(s, w, h, x, y)
}

/// No cell revealed between `a` and `b` holds a mine.
pub open spec fn no_mine_revealed(a: Seq<Cell>, b: Seq<Cell>) -> bool {
    forall|i: int| 0 <= i < a.len() && (#[trigger] b[i]).is_revealed && !a[i].is_revealed ==> !b[i].is_mine
}

impl GameGrid {
    /// Dimensions fit the array, and the cursor is on the board.
    pub open spec fn wf(&self) -> bool {
        &&& 1 <= self.width <= 32
        &&& 1 <= self.height <= 16
        &&& on_board(self.width as int, self.height as int, self.cursor_x as int, self.cursor_y as int)
    }
}

proof fn lemma_count_update(s: Seq<Cell>, i: int, c: Cell, f: spec_fn(Cell) -> bool)
    requires
        0 <= i < s.len(),
    ensures
        count_where(s.update(i, c), f) + (if f(s[i]) { 1int } else { 0int })
            == count_where(s, f) + (if f(c) { 1int } else { 0int }),
    decreases s.len(),
{
    let t = s.update(i, c);
    if i == s.len() - 1 {
        assert(t.drop_last() =~= s.drop_last());
    } else {
        assert(t.drop_last() =~= s.drop_last().update(i, c));
        lemma_count_update(s.drop_last(), i, c, f);
    }
}

proof fn lemma_hidden_monotone(a: Seq<Cell>, b: Seq<Cell>)
    requires
        reveal_only(a, b),
    ensures
        hidden_count(b) <= hidden_count(a),
    decreases a.len(),
{
    if a.len() > 0 {
        assert(reveal_only(a.drop_last(), b.drop_last())) by {
            assert forall|i: int| 0 <= i < a.drop_last().len() implies (#[trigger] b.drop_last()[i]).is_mine == a.drop_last()[i].is_mine by {
                assert(b[i].is_mine == a[i].is_mine);
            }
        }
        lemma_hidden_monotone(a.drop_last(), b.drop_last());
        assert(b.last() == b[b.len() - 1]);
    }
}

proof fn lemma_reveal_only_trans(a: Seq<Cell>, b: Seq<Cell>, c: Seq<Cell>)
    requires
        reveal_only(a, b),
        reveal_only(b, c),
    ensures
        reveal_only(a, c),
{
    assert forall|i: int| 0 <= i < a.len() implies {
        &&& (#[trigger] c[i]).is_mine == a[i].is_mine
        &&& c[i].is_flagged == a[i].is_flagged
        &&& c[i].neighbors == a[i].neighbors
        &&& (a[i].is_revealed ==> c[i].is_revealed)
        &&& (c[i].is_revealed && !a[i].is_revealed ==> !a[i].is_flagged)
    } by {
        assert(b[i].is_mine == a[i].is_mine);
        assert(c[i].is_mine == b[i].is_mine);
    }
}

proof fn lemma_settled_monotone(a: Seq<Cell>, b: Seq<Cell>, w: int, h: int, x: int, y: int)
    requires
        reveal_only(a, b),
        settled(a, w, h, x, y),
        a.len() == 512,
        w <= 32,
        h <= 16,
    ensures
        settled(b, w, h, x, y),
{
    assert forall|nx: int, ny: int|
        on_board(w, h, nx, ny) && x - 1 <= nx <= x + 1 && y - 1 <= ny <= y + 1
            implies (#[trigger] cell_at(b, nx, ny)).is_revealed || cell_at(b, nx, ny).is_flagged by {
        assert(cell_at(a, nx, ny).is_revealed || cell_at(a, nx, ny).is_flagged);
        assert(0 <= ny * 32 + nx < 512) by (nonlinear_arith)
            requires
                0 <= nx < 32,
                0 <= ny < 16,
        ;
    }
}

proof fn lemma_closed_trans(a: Seq<Cell>, b: Seq<Cell>, c: Seq<Cell>, w: int, h: int)
    requires
        reveal_only(a, b),
        reveal_only(b, c),
        closed(a, b, w, h),
        closed(b, c, w, h),
        a.len() == 512,
        w <= 32,
        h <= 16,
    ensures
        closed(a, c, w, h),
{
    assert forall|x: int, y: int|
        on_board(w, h, x, y) && (#[trigger] cell_at(c, x, y)).is_revealed && !cell_at(a, x, y).is_revealed
            && cell_at(c, x, y).neighbors == 0 implies settled(c, w, h, x, y) by {
        assert(0 <= y * 32 + x < 512) by (nonlinear_arith)
            requires
                0 <= x < 32,
                0 <= y < 16,
        ;
        if cell_at(b, x, y).is_revealed {
            assert(cell_at(b, x, y).neighbors == 0);
            lemma_settled_monotone(b, c, w, h, x, y);
        }
    }
}

proof fn lemma_consistent_kept(a: Seq<Cell>, b: Seq<Cell>, w: int, h: int)
    requires
        counts_consistent(a, w, h),
        a.len() == 512,
        b.len() == 512,
        1 <= w <= 32,
        1 <= h <= 16,
        forall|i: int| 0 <= i < 512 ==> (#[trigger] b[i]).is_mine == a[i].is_mine && b[i].neighbors == a[i].neighbors,
    ensures
        counts_consistent(b, w, h),
{
    assert forall|x: int, y: int| #[trigger] mine_at(b, w, h, x, y) == mine_at(a, w, h, x, y) by {
        if on_board(w, h, x, y) {
            assert(0 <= y * 32 + x < 512) by (nonlinear_arith)
                requires
                    0 <= x < 32,
                    0 <= y < 16,
            ;
        }
    }
    assert forall|x: int, y: int| on_board(w, h, x, y) && !(#[trigger] cell_at(b, x, y)).is_mine
        implies cell_at(b, x, y).neighbors == adjacent_mines(b, w, h, x, y) by {
        assert(0 <= y * 32 + x < 512) by (nonlinear_arith)
            requires
                0 <= x < 32,
                0 <= y < 16,
        ;
        assert(!cell_at(a, x, y).is_mine);
    }
}

/// A neighbour of a mine-free blank cell holds no mine when counts are consistent.
proof fn lemma_blank_neighbour_safe(s: Seq<Cell>, w: int, h: int, x: int, y: int, nx: int, ny: int)
    requires
        counts_consistent(s, w, h),
        on_board(w, h, x, y),
        !cell_at(s, x, y).is_mine,
        cell_at(s, x, y).neighbors == 0,
        on_board(w, h, nx, ny),
        x - 1 <= nx <= x + 1,
        y - 1 <= ny <= y + 1,
    ensures
        !cell_at(s, nx, ny).is_mine,
{
    assert(adjacent_mines(s, w, h, x, y) == 0);
    if !(nx == x && ny == y) {
        assert(mine_at(s, w, h, nx, ny) == 0);
    }
}

proof fn lemma_no_mine_trans(a: Seq<Cell>, b: Seq<Cell>, c: Seq<Cell>)
    requires
        reveal_only(a, b),
        reveal_only(b, c),
        no_mine_revealed(a, b),
        no_mine_revealed(b, c),
    ensures
        no_mine_revealed(a, c),
{
    assert forall|i: int| 0 <= i < a.len() && (#[trigger] c[i]).is_revealed && !a[i].is_revealed implies !c[i].is_mine by {
        assert(c[i].is_mine == b[i].is_mine);
        if b[i].is_revealed {
            assert(!b[i].is_mine);
        }
    }
}

/// Reveals the cell at `(x, y)` unless it is revealed or flagged, and, when
/// it has no mine around it, every neighbour in turn, recursively.
pub fn flood_fill_reveal(grid: &mut GameGrid, x: i32, y: i32)
    requires
        old(grid).wf(),
        on_board(old(grid).width as int, old(grid).height as int, x as int, y as int),
    ensures
        final(grid).width == old(grid).width,
        final(grid).height == old(grid).height,
        final(grid).cursor_x == old(grid).cursor_x,
        final(grid).cursor_y == old(grid).cursor_y,
        final(grid).game_over == old(grid).game_over,
        reveal_only(old(grid).cells@, final(grid).cells@),
        hidden_count(final(grid).cells@) <= hidden_count(old(grid).cells@),
        !cell_at(old(grid).cells@, x as int, y as int).is_flagged ==> cell_at(final(grid).cells@, x as int, y as int).is_revealed,
        closed(old(grid).cells@, final(grid).cells@, old(grid).width as int, old(grid).height as int),
        counts_consistent(old(grid).cells@, old(grid).width as int, old(grid).height as int)
            && !cell_at(old(grid).cells@, x as int, y as int).is_mine
            ==> no_mine_revealed(old(grid).cells@, final(grid).cells@),
    decreases hidden_count(old(grid).cells@),
{
    let ghost w = grid.width as int;
    let ghost h = grid.height as int;
    proof {
        assert(0 <= y * 32 + x < 512) by (nonlinear_arith)
            requires
                0 <= x < 32,
                0 <= y < 16,
        ;
    }
    let idx = (y * 32 + x) as usize;
    let cell = grid.cells[idx];
    if cell.is_revealed || cell.is_flagged {
        return;
    }
    let ghost before = grid.cells@;
    grid.cells[idx] = Cell { is_mine: cell.is_mine, is_revealed: true, is_flagged: cell.is_flagged, neighbors: cell.neighbors };
    let ghost g0 = grid.cells@;
    proof {
        lemma_count_update(before, idx as int, g0[idx as int], |c: Cell| !c.is_revealed);
        assert(reveal_only(before, g0));
        assert forall|cx: int, cy: int|
            on_board(w, h, cx, cy) && (#[trigger] cell_at(g0, cx, cy)).is_revealed && !cell_at(before, cx, cy).is_revealed
                implies cx == x && cy == y by {
            assert(0 <= cy * 32 + cx < 512) by (nonlinear_arith)
                requires
                    0 <= cx < 32,
                    0 <= cy < 16,
            ;
            if cy * 32 + cx == y * 32 + x {
                assert(cx == x && cy == y) by (nonlinear_arith)
                    requires
                        cy * 32 + cx == y * 32 + x,
                        0 <= cx < 32,
                        0 <= x < 32,
                ;
            }
        }
    }
    let ghost safe = counts_consistent(before, w, h) && !cell_at(before, x as int, y as int).is_mine;
    proof {
        if safe {
            assert forall|i: int| 0 <= i < before.len() && (#[trigger] g0[i]).is_revealed && !before[i].is_revealed
                implies !g0[i].is_mine by {
                assert(i == idx);
            }
            lemma_consistent_kept(before, g0, w, h);
        }
    }
    if cell.neighbors > 0 {
        return;
    }
    let mut dy: i32 = -1;
    while dy <= 1
        invariant
            -1 <= dy <= 2,
            grid.width == old(grid).width,
            grid.height == old(grid).height,
            grid.cursor_x == old(grid).cursor_x,
            grid.cursor_y == old(grid).cursor_y,
            grid.game_over == old(grid).game_over,
            w == grid.width,
            h == grid.height,
            old(grid).wf(),
            on_board(w, h, x as int, y as int),
            before == old(grid).cells@,
            reveal_only(before, g0),
            hidden_count(g0) < hidden_count(before),
            reveal_only(g0, grid.cells@),
            closed(g0, grid.cells@, w, h),
            safe ==> counts_consistent(grid.cells@, w, h) && no_mine_revealed(g0, grid.cells@),
            safe ==> !cell_at(g0, x as int, y as int).is_mine,
            cell_at(g0, x as int, y as int).is_revealed,
            cell_at(g0, x as int, y as int).neighbors == 0,
            forall|cx: int, cy: int|
                on_board(w, h, cx, cy) && (#[trigger] cell_at(g0, cx, cy)).is_revealed && !cell_at(before, cx, cy).is_revealed
                    ==> cx == x && cy == y,
            visited_before(grid.cells@, w, h, x as int, y as int, dy as int, -1),
        decreases 2 - dy,
    {
        let mut dx: i32 = -1;
        while dx <= 1
            invariant
                -1 <= dy <= 1,
                -1 <= dx <= 2,
                grid.width == old(grid).width,
                grid.height == old(grid).height,
                grid.cursor_x == old(grid).cursor_x,
                grid.cursor_y == old(grid).cursor_y,
                grid.game_over == old(grid).game_over,
                w == grid.width,
                h == grid.height,
                old(grid).wf(),
                on_board(w, h, x as int, y as int),
                before == old(grid).cells@,
                reveal_only(before, g0),
                hidden_count(g0) < hidden_count(before),
                reveal_only(g0, grid.cells@),
                closed(g0, grid.cells@, w, h),
                safe ==> counts_consistent(grid.cells@, w, h) && no_mine_revealed(g0, grid.cells@),
                safe ==> !cell_at(g0, x as int, y as int).is_mine,
                cell_at(g0, x as int, y as int).neighbors == 0,
                visited_before(grid.cells@, w, h, x as int, y as int, dy as int, dx as int),
            decreases 2 - dx,
        {
            let nx = x + dx;
            let ny = y + dy;
            if nx >= 0 && nx < grid.width && ny >= 0 && ny < grid.height {
                let ghost cur = grid.cells@;
                proof {
                    lemma_hidden_monotone(g0, cur);
                    if safe {
                        assert(0 <= y * 32 + x < 512) by (nonlinear_arith)
                            requires
                                0 <= x < 32,
                                0 <= y < 16,
                        ;
                        assert(cur[y * 32 + x].is_mine == g0[y * 32 + x].is_mine);
                        lemma_blank_neighbour_safe(cur, w, h, x as int, y as int, nx as int, ny as int);
                    }
                }
                flood_fill_reveal(grid, nx, ny);
                proof {
                    if safe {
                        lemma_no_mine_trans(g0, cur, grid.cells@);
                        lemma_consistent_kept(cur, grid.cells@, w, h);
                    }
                    lemma_reveal_only_trans(g0, cur, grid.cells@);
                    lemma_closed_trans(g0, cur, grid.cells@, w, h);
                    let s = grid.cells@;
                    assert forall|mx: int, my: int|
                        on_board(w, h, mx, my) && x - 1 <= mx <= x + 1 && y - 1 <= my <= y + 1
                            && (my - y < dy || (my - y == dy && mx - x < dx + 1))
                            implies (#[trigger] cell_at(s, mx, my)).is_revealed || cell_at(s, mx, my).is_flagged by {
                        assert(0 <= my * 32 + mx < 512) by (nonlinear_arith)
                            requires
                                0 <= mx < 32,
                                0 <= my < 16,
                        ;
                        if !(mx == nx && my == ny) {
                            assert(cell_at(cur, mx, my).is_revealed || cell_at(cur, mx, my).is_flagged);
                        }
                    }
                }
            } else {
                proof {
                    let s = grid.cells@;
                    assert forall|mx: int, my: int|
                        on_board(w, h, mx, my) && x - 1 <= mx <= x + 1 && y - 1 <= my <= y + 1
                            && (my - y < dy || (my - y == dy && mx - x < dx + 1))
                            implies (#[trigger] cell_at(s, mx, my)).is_revealed || cell_at(s, mx, my).is_flagged by {
                        if mx == nx && my == ny {
                            assert(false);
                        }
                    }
                }
            }
            dx = dx + 1;
        }
        dy = dy + 1;
    }
    proof {
        let s = grid.cells@;
        lemma_reveal_only_trans(before, g0, s);
        lemma_hidden_monotone(g0, s);
        if safe {
            lemma_no_mine_trans(before, g0, s);
        }
        assert(settled(s, w, h, x as int, y as int));
        assert forall|cx: int, cy: int|
            on_board(w, h, cx, cy) && (#[trigger] cell_at(s, cx, cy)).is_revealed && !cell_at(before, cx, cy).is_revealed
                && cell_at(s, cx, cy).neighbors == 0 implies settled(s, w, h, cx, cy) by {
            assert(0 <= cy * 32 + cx < 512) by (nonlinear_arith)
                requires
                    0 <= cx < 32,
                    0 <= cy < 16,
            ;
            if !(cx == x && cy == y) {
                if cell_at(g0, cx, cy).is_revealed {
                    assert(cx == x && cy == y);
                }
            }
        }
        assert(cell_at(s, x as int, y as int).is_revealed);
    }
}

/// `v` limited to `[lo, hi]`.
pub open spec fn clamp_to(v: int, lo: int, hi: int) -> int {
    if v < lo {
        lo
    } else if v > hi {
        hi
    } else {
        v
    }
}

/// Cursor column after `input`: moved and kept on the board when the input moves.
pub open spec fn next_cursor_x(g: &GameGrid, input: InputState) -> int {
    if input.dx != 0 || input.dy != 0 {
        clamp_to(g.cursor_x + input.dx, 0, g.width - 1)
    } else {
        g.cursor_x as int
    }
}

/// Cursor row after `input`.
pub open spec fn next_cursor_y(g: &GameGrid, input: InputState) -> int {
    if input.dx != 0 || input.dy != 0 {
        clamp_to(g.cursor_y + input.dy, 0, g.height - 1)
    } else {
        g.cursor_y as int
    }
}

/// The cursor cell after the flag key: its flag toggles unless it is revealed.
pub open spec fn after_flag(c: Cell, input: InputState) -> Cell {
    if input.flag && !c.is_revealed {
        Cell { is_flagged: !c.is_flagged, ..c }
    } else {
        c
    }
}

fn clamp_i64(v: i64, lo: i64, hi: i64) -> (r: i64)
    requires
        lo <= hi,
    ensures
        r == clamp_to(v as int, lo as int, hi as int),
{
    if v < lo {
        lo
    } else if v > hi {
        hi
    } else {
        v
    }
}

/// One update of the game: move the cursor, toggle a flag, reveal a cell.
/// Revealing a mine ends the game; revealing another cell floods.
pub fn game_logic(grid: &mut GameGrid, input: &InputState)
    requires
        old(grid).wf(),
    ensures
        final(grid).wf(),
        final(grid).width == old(grid).width,
        final(grid).height == old(grid).height,
        old(grid).game_over ==> *final(grid) == *old(grid),
        !old(grid).game_over ==> ({
            let cx = next_cursor_x(old(grid), *input);
            let cy = next_cursor_y(old(grid), *input);
            let i = cy * 32 + cx;
            let c = after_flag(old(grid).cells@[i], *input);
            let flagged = old(grid).cells@.update(i, c);
            let hit = input.reveal && !c.is_flagged && !c.is_revealed;
            &&& final(grid).cursor_x == cx
            &&& final(grid).cursor_y == cy
            &&& (hit && c.is_mine ==> final(grid).game_over
                && final(grid).cells@ == flagged.update(i, Cell { is_revealed: true, ..c }))
            &&& (hit && !c.is_mine ==> !final(grid).game_over
                && reveal_only(flagged, final(grid).cells@)
                && final(grid).cells@[i].is_revealed
                && closed(flagged, final(grid).cells@, old(grid).width as int, old(grid).height as int)
                && (counts_consistent(old(grid).cells@, old(grid).width as int, old(grid).height as int)
                    ==> no_mine_revealed(flagged, final(grid).cells@)))
            &&& (!hit ==> !final(grid).game_over && final(grid).cells@ == flagged)
        }),
{
    if grid.game_over {
        return;
    }
    if input.dx != 0 || input.dy != 0 {
        grid.cursor_x = clamp_i64(grid.cursor_x as i64 + input.dx as i64, 0, grid.width as i64 - 1) as i32;
        grid.cursor_y = clamp_i64(grid.cursor_y as i64 + input.dy as i64, 0, grid.height as i64 - 1) as i32;
    }
    proof {
        assert(0 <= grid.cursor_y * 32 + grid.cursor_x < 512) by (nonlinear_arith)
            requires
                0 <= grid.cursor_x < 32,
                0 <= grid.cursor_y < 16,
        ;
    }
    let cursor_idx = (grid.cursor_y * 32 + grid.cursor_x) as usize;
    if input.flag {
        let cell = grid.cells[cursor_idx];
        if !cell.is_revealed {
            grid.cells[cursor_idx] = Cell { is_flagged: !cell.is_flagged, ..cell };
        }
    }
    if input.reveal {
        let cell = grid.cells[cursor_idx];
        if !cell.is_flagged && !cell.is_revealed {
            if cell.is_mine {
                grid.cells[cursor_idx] = Cell { is_revealed: true, ..cell };
                grid.game_over = true;
            } else {
                let x = grid.cursor_x;
                let y = grid.cursor_y;
                proof {
                    if counts_consistent(old(grid).cells@, grid.width as int, grid.height as int) {
                        lemma_consistent_kept(old(grid).cells@, grid.cells@, grid.width as int, grid.height as int);
                    }
                }
                flood_fill_reveal(grid, x, y);
            }
        }
    }
}

/// 1 when `(x, y)` is on the board and holds a mine, else 0.
pub open spec fn mine_at(s: Seq<Cell>, w: int, h: int, x: int, y: int) -> int {
    if on_board(w, h, x, y) && cell_at(s, x, y).is_mine {
        1
    } else {
        0
    }
}

/// Mines among the eight neighbours of `(x, y)`.
pub open spec fn adjacent_mines(s: Seq<Cell>, w: int, h: int, x: int, y: int) -> int {
    mine_at(s, w, h, x - 1, y - 1) + mine_at(s, w, h, x, y - 1) + mine_at(s, w, h, x + 1, y - 1)
        + mine_at(s, w, h, x - 1, y) + mine_at(s, w, h, x + 1, y)
        + mine_at(s, w, h, x - 1, y + 1) + mine_at(s, w, h, x, y + 1) + mine_at(s, w, h, x + 1, y + 1)
}

/// Number of mines on the board array.
pub open spec fn mine_count(s: Seq<Cell>) -> nat {
    count_where(s, |c: Cell| c.is_mine)
}

/// Next state of the mine-placement generator.
pub open spec fn next_seed(seed: int) -> int {
    (seed * 1103515245 + 12345) % 2147483648
}

fn mine_at_exec(grid: &GameGrid, x: i32, y: i32) -> (r: u8)
    requires
        grid.wf(),
        -1 <= x <= 32,
        -1 <= y <= 16,
    ensures
        r == mine_at(grid.cells@, grid.width as int, grid.height as int, x as int, y as int),
{
    if x >= 0 && x < grid.width && y >= 0 && y < grid.height {
        proof {
            assert(0 <= y * 32 + x < 512) by (nonlinear_arith)
                requires
                    0 <= x < 32,
                    0 <= y < 16,
            ;
        }
        if grid.cells[(y * 32 + x) as usize].is_mine {
            return 1;
        }
    }
    0
}

/// Starts a game on a 16 by 10 board: clears every cell, places twenty mines
/// among the first 160 array cells by a fixed pseudo-random sequence (should
/// the sequence run out of fresh cells, the lowest free cells take the rest),
/// and writes each mine-free board cell's count of neighbouring mines.
pub fn setup_game(grid: &mut GameGrid)
    ensures
        final(grid).wf(),
        final(grid).width == 16,
        final(grid).height == 10,
        final(grid).cursor_x == 0,
        final(grid).cursor_y == 0,
        !final(grid).game_over,
        mine_count(final(grid).cells@) == 20,
        counts_consistent(final(grid).cells@, 16, 10),
        forall|i: int| 0 <= i < 512 ==> !(#[trigger] final(grid).cells@[i]).is_revealed && !final(grid).cells@[i].is_flagged,
        forall|i: int| 160 <= i < 512 ==> !(#[trigger] final(grid).cells@[i]).is_mine,
        forall|x: int, y: int| 0 <= x < 32 && 0 <= y < 16 ==> (#[trigger] cell_at(final(grid).cells@, x, y)).neighbors == if on_board(16, 10, x, y) && !cell_at(final(grid).cells@, x, y).is_mine {
            adjacent_mines(final(grid).cells@, 16, 10, x, y)
        } else {
            0
        },
{
    grid.width = 16;
    grid.height = 10;
    grid.cursor_x = 0;
    grid.cursor_y = 0;
    grid.game_over = false;
    let mut i: usize = 0;
    while i < 512
        invariant
            i <= 512,
            grid.width == 16 && grid.height == 10 && grid.cursor_x == 0 && grid.cursor_y == 0 && !grid.game_over,
            forall|j: int| 0 <= j < i ==> #[trigger] grid.cells@[j] == (Cell { is_mine: false, is_revealed: false, is_flagged: false, neighbors: 0 }),
        decreases 512 - i,
    {
        grid.cells[i] = Cell::default();
        i = i + 1;
    }
    proof {
        lemma_count_none(grid.cells@);
    }
    let mut seed: u64 = 12345;
    let mut mines_placed: u32 = 0;
    let target_mines: u32 = 20;
    let mut attempts: u64 = 0;
    while mines_placed < target_mines && attempts < 2147483648
        invariant
            grid.width == 16 && grid.height == 10 && grid.cursor_x == 0 && grid.cursor_y == 0 && !grid.game_over,
            seed < 2147483648,
            mines_placed <= target_mines,
            target_mines == 20,
            mine_count(grid.cells@) == mines_placed,
            forall|j: int| 0 <= j < 512 ==> !(#[trigger] grid.cells@[j]).is_revealed && !grid.cells@[j].is_flagged
                && grid.cells@[j].neighbors == 0,
            forall|j: int| 160 <= j < 512 ==> !(#[trigger] grid.cells@[j]).is_mine,
        decreases 2147483648 - attempts,
    {
        seed = (seed * 1103515245 + 12345) % 2147483648;
        attempts = attempts + 1;
        let idx = (seed % 160) as usize;
        let cell = grid.cells[idx];
        if !cell.is_mine {
            let ghost before = grid.cells@;
            grid.cells[idx] = Cell { is_mine: true, ..cell };
            proof {
                lemma_count_update(before, idx as int, grid.cells@[idx as int], |c: Cell| c.is_mine);
            }
            mines_placed = mines_placed + 1;
        }
    }
    let mut idx: usize = 0;
    while mines_placed < target_mines && idx < 160
        invariant
            grid.width == 16 && grid.height == 10 && grid.cursor_x == 0 && grid.cursor_y == 0 && !grid.game_over,
            idx <= 160,
            mines_placed <= target_mines,
            target_mines == 20,
            mine_count(grid.cells@) == mines_placed,
            forall|j: int| 0 <= j < 512 ==> !(#[trigger] grid.cells@[j]).is_revealed && !grid.cells@[j].is_flagged
                && grid.cells@[j].neighbors == 0,
            forall|j: int| 160 <= j < 512 ==> !(#[trigger] grid.cells@[j]).is_mine,
            mines_placed < target_mines ==> forall|j: int| 0 <= j < idx ==> (#[trigger] grid.cells@[j]).is_mine,
        decreases 160 - idx,
    {
        let cell = grid.cells[idx];
        if !cell.is_mine {
            let ghost before = grid.cells@;
            grid.cells[idx] = Cell { is_mine: true, ..cell };
            proof {
                lemma_count_update(before, idx as int, grid.cells@[idx as int], |c: Cell| c.is_mine);
            }
            mines_placed = mines_placed + 1;
        }
        idx = idx + 1;
    }
    proof {
        if mines_placed < target_mines {
            lemma_prefix_mines(grid.cells@, 160);
        }
    }
    let ghost mines = grid.cells@;
    let w = grid.width;
    let h = grid.height;
    let mut y: i32 = 0;
    while y < h
        invariant
            0 <= y <= h,
            w == 16 && h == 10,
            grid.width == 16 && grid.height == 10 && grid.cursor_x == 0 && grid.cursor_y == 0 && !grid.game_over,
            mine_count(mines) == 20,
            forall|j: int| 160 <= j < 512 ==> !(#[trigger] mines[j]).is_mine,
            grid.cells@.len() == 512,
            mines.len() == 512,
            forall|j: int| 0 <= j < 512 ==> {
                &&& (#[trigger] grid.cells@[j]).is_mine == mines[j].is_mine
                &&& !grid.cells@[j].is_revealed && !grid.cells@[j].is_flagged
                &&& !mines[j].is_revealed && !mines[j].is_flagged && mines[j].neighbors == 0
            },
            forall|cx: int, cy: int| 0 <= cx < 32 && 0 <= cy < 16 ==> (#[trigger] cell_at(grid.cells@, cx, cy)).neighbors == if on_board(16, y as int, cx, cy) && !cell_at(mines, cx, cy).is_mine {
                adjacent_mines(mines, 16, 10, cx, cy)
            } else {
                0
            },
        decreases h - y,
    {
        let mut x: i32 = 0;
        while x < w
            invariant
                0 <= y < h,
                0 <= x <= w,
                w == 16 && h == 10,
                grid.width == 16 && grid.height == 10 && grid.cursor_x == 0 && grid.cursor_y == 0 && !grid.game_over,
                grid.cells@.len() == 512,
                mines.len() == 512,
                mine_count(mines) == 20,
                forall|j: int| 160 <= j < 512 ==> !(#[trigger] mines[j]).is_mine,
                forall|j: int| 0 <= j < 512 ==> {
                    &&& (#[trigger] grid.cells@[j]).is_mine == mines[j].is_mine
                    &&& !grid.cells@[j].is_revealed && !grid.cells@[j].is_flagged
                    &&& !mines[j].is_revealed && !mines[j].is_flagged && mines[j].neighbors == 0
                },
                forall|cx: int, cy: int| 0 <= cx < 32 && 0 <= cy < 16 ==> (#[trigger] cell_at(grid.cells@, cx, cy)).neighbors == if (on_board(16, y as int, cx, cy) || (cy == y && 0 <= cx < x)) && !cell_at(mines, cx, cy).is_mine {
                    adjacent_mines(mines, 16, 10, cx, cy)
                } else {
                    0
                },
            decreases w - x,
        {
            proof {
                assert(0 <= y * 32 + x < 512) by (nonlinear_arith)
                    requires
                        0 <= x < 32,
                        0 <= y < 16,
                ;
                lemma_same_mines(mines, grid.cells@);
            }
            let idx = (y * 32 + x) as usize;
            let cell = grid.cells[idx];
            if !cell.is_mine {
                let count = mine_at_exec(grid, x - 1, y - 1) + mine_at_exec(grid, x, y - 1) + mine_at_exec(grid, x + 1, y - 1)
                    + mine_at_exec(grid, x - 1, y) + mine_at_exec(grid, x + 1, y)
                    + mine_at_exec(grid, x - 1, y + 1) + mine_at_exec(grid, x, y + 1) + mine_at_exec(grid, x + 1, y + 1);
                let ghost before = grid.cells@;
                grid.cells[idx] = Cell { neighbors: count, ..cell };
                proof {
                    assert forall|cx: int, cy: int| 0 <= cx < 32 && 0 <= cy < 16 && !(cx == x && cy == y)
                        implies #[trigger] cell_at(grid.cells@, cx, cy) == cell_at(before, cx, cy) by {
                        assert(0 <= cy * 32 + cx < 512) by (nonlinear_arith)
                            requires
                                0 <= cx < 32,
                                0 <= cy < 16,
                        ;
                        if cy * 32 + cx == y * 32 + x {
                            assert(cx == x && cy == y) by (nonlinear_arith)
                                requires
                                    cy * 32 + cx == y * 32 + x,
                                    0 <= cx < 32,
                                    0 <= x < 32,
                            ;
                        }
                    }
                }
            }
            x = x + 1;
        }
        y = y + 1;
    }
    proof {
        lemma_mine_count_same(mines, grid.cells@);
    }
}

/// A board whose first `n` cells are all mines has at least `n` mines.
proof fn lemma_prefix_mines(s: Seq<Cell>, n: int)
    requires
        0 <= n <= s.len(),
        forall|j: int| 0 <= j < n ==> (#[trigger] s[j]).is_mine,
    ensures
        mine_count(s) >= n,
    decreases s.len(),
{
    if s.len() > 0 {
        if n == s.len() {
            assert(s.last() == s[s.len() - 1]);
            lemma_prefix_mines(s.drop_last(), n - 1);
        } else {
            lemma_prefix_mines(s.drop_last(), n);
        }
    }
}

proof fn lemma_count_none(s: Seq<Cell>)
    requires
        forall|j: int| 0 <= j < s.len() ==> #[trigger] s[j] == (Cell { is_mine: false, is_revealed: false, is_flagged: false, neighbors: 0 }),
    ensures
        mine_count(s) == 0,
    decreases s.len(),
{
    if s.len() > 0 {
        lemma_count_none(s.drop_last());
        assert(s.last() == s[s.len() - 1]);
    }
}

/// The board's mine flags agree with `mines` wherever a cell is read.
proof fn lemma_same_mines(mines: Seq<Cell>, s: Seq<Cell>)
    requires
        s.len() == 512,
        mines.len() == 512,
        forall|j: int| 0 <= j < 512 ==> (#[trigger] s[j]).is_mine == mines[j].is_mine,
    ensures
        forall|x: int, y: int| #[trigger] mine_at(s, 16, 10, x, y) == mine_at(mines, 16, 10, x, y),
{
    assert forall|x: int, y: int| #[trigger] mine_at(s, 16, 10, x, y) == mine_at(mines, 16, 10, x, y) by {
        if on_board(16, 10, x, y) {
            assert(0 <= y * 32 + x < 512) by (nonlinear_arith)
                requires
                    0 <= x < 16,
                    0 <= y < 10,
            ;
        }
    }
}

proof fn lemma_mine_count_same(a: Seq<Cell>, b: Seq<Cell>)
    requires
        a.len() == b.len(),
        forall|j: int| 0 <= j < a.len() ==> (#[trigger] b[j]).is_mine == a[j].is_mine,
    ensures
        mine_count(a) == mine_count(b),
    decreases a.len(),
{
    if a.len() > 0 {
        lemma_mine_count_same(a.drop_last(), b.drop_last());
        assert(b.last().is_mine == a.last().is_mine);
    }
}

} // verus!
