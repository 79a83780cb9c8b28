use vstd::prelude::*;
use rand::Rng;

verus! {

/// What one move of the player leads to.
#[derive(Clone, Copy, Debug, PartialEq, Eq, Structural)]
pub enum VictoryState {
    Continue,
    Over,
    Won,
}

/// Why a board could not be built.
#[derive(Clone, Copy, Debug, PartialEq, Eq, Structural)]
pub enum GameError {
    InvalidDimensions,
}

/// What the player sees of a cell.
#[derive(Clone, Copy, Debug, PartialEq, Eq, Structural)]
pub enum CellState {
    Revealed,
    Flagged,
    Hidden,
}

/// What a cell holds: a mine, or the number of mines around it.
#[derive(Clone, Copy, Debug, PartialEq, Eq, Structural)]
pub enum CellType {
    Mine,
    Count(u8),
}

#[derive(Clone, Copy, Debug, PartialEq, Eq, Structural)]
pub struct Cell {
    pub state: CellState,
    pub cell_type: CellType,
}

pub struct Game {
    cursor_x: i8,
    cursor_y: i8,
    width: i8,
    height: i8,
    mine_percent: i8,
    mine_count: usize,
    correct_flag_count: usize,
    grid: Vec<Cell>,
}

/// The abstract state of a game: the grid is laid out row by row.
pub struct GameView {
    pub cursor_x: int,
    pub cursor_y: int,
    pub width: int,
    pub height: int,
    pub mine_percent: int,
    pub mine_count: int,
    pub correct_flag_count: int,
    pub grid: Seq<Cell>,
}

impl View for Game {
    type V = GameView;

    closed spec fn view(&self) -> GameView {
        GameView {
            cursor_x: self.cursor_x as int,
            cursor_y: self.cursor_y as int,
            width: self.width as int,
            height: self.height as int,
            mine_percent: self.mine_percent as int,
            mine_count: self.mine_count as int,
            correct_flag_count: self.correct_flag_count as int,
            grid: self.grid@,
        }
    }
}

// ---------------------------------------------------------------------------
// Counting over sequences

/// How many elements of `s` satisfy `f`.
pub open spec fn count_where<A>(s: Seq<A>, f: spec_fn(A) -> bool) -> nat
    decreases s.len(),
{
    if s.len() == 0 {
        0
    } else {
        count_where(s.drop_last(), f) + if f(s.last()) { 1nat } else { 0nat }
    }
}

pub proof fn lemma_count_le_len<A>(s: Seq<A>, f: spec_fn(A) -> bool)
    ensures
        count_where(s, f) <= s.len(),
    decreases s.len(),
{
    if s.len() > 0 {
        lemma_count_le_len(s.drop_last(), f);
    }
}

pub proof fn lemma_count_none<A>(s: Seq<A>, f: spec_fn(A) -> bool)
    requires
        forall|i: int| 0 <= i < s.len() ==> !f(#[trigger] s[i]),
    ensures
        count_where(s, f) == 0,
    decreases s.len(),
{
    if s.len() > 0 {
        lemma_count_none(s.drop_last(), f);
    }
}

pub proof fn lemma_count_all<A>(s: Seq<A>, f: spec_fn(A) -> bool)
    requires
        forall|i: int| 0 <= i < s.len() ==> f(#[trigger] s[i]),
    ensures
        count_where(s, f) == s.len(),
    decreases s.len(),
{
    if s.len() > 0 {
        lemma_count_all(s.drop_last(), f);
    }
}

pub proof fn lemma_count_take_step<A>(s: Seq<A>, f: spec_fn(A) -> bool, i: int)
    requires
        0 <= i < s.len(),
    ensures
        count_where(s.take(i + 1), f) == count_where(s.take(i), f) + if f(s[i]) { 1int } else { 0int },
{
    assert(s.take(i + 1).drop_last() =~= s.take(i));
}

pub proof fn lemma_count_update<A>(s: Seq<A>, f: spec_fn(A) -> bool, i: int, v: A)
    requires
        0 <= i < s.len(),
    ensures
        count_where(s.update(i, v), f) == count_where(s, f) - (if f(s[i]) { 1int } else { 0int }) + (if f(v) { 1int } else { 0int }),
    decreases s.len(),
{
    if i == s.len() - 1 {
        assert(s.update(i, v).drop_last() =~= s.drop_last());
    } else {
        lemma_count_update(s.drop_last(), f, i, v);
        assert(s.update(i, v).drop_last() =~= s.drop_last().update(i, v));
    }
}

// ---------------------------------------------------------------------------
// The board as mathematics

pub open spec fn kinds_of(g: Seq<Cell>) -> Seq<CellType> {
    g.map_values(|c: Cell| c.cell_type)
}

pub open spec fn states_of(g: Seq<Cell>) -> Seq<CellState> {
    g.map_values(|c: Cell| c.state)
}

pub open spec fn is_mine() -> spec_fn(CellType) -> bool {
    |t: CellType| t is Mine
}

pub open spec fn is_flagged_mine() -> spec_fn(Cell) -> bool {
    |c: Cell| c.state == CellState::Flagged && c.cell_type is Mine
}

pub open spec fn is_unrevealed() -> spec_fn(CellState) -> bool {
    |t: CellState| t != CellState::Revealed
}

pub open spec fn count_mines(k: Seq<CellType>) -> nat {
    count_where(k, is_mine())
}

pub open spec fn count_flagged_mines(g: Seq<Cell>) -> nat {
    count_where(g, is_flagged_mine())
}

pub open spec fn count_unrevealed(s: Seq<CellState>) -> nat {
    count_where(s, is_unrevealed())
}

/// Row-major position of column `x`, row `y`.
pub open spec fn idx(w: int, x: int, y: int) -> int {
    x + y * w
}

pub open spec fn in_bounds(w: int, h: int, x: int, y: int) -> bool {
    0 <= x < w && 0 <= y < h
}

pub open spec fn mine_at(k: Seq<CellType>, w: int, h: int, x: int, y: int) -> bool {
    in_bounds(w, h, x, y) && k[idx(w, x, y)] is Mine
}

/// The eight positions around `(x, y)`, in the order in which they are visited.
pub open spec fn neighbors_of(x: int, y: int) -> Seq<(int, int)> {
    seq![
        (x - 1, y - 1),
        (x, y - 1),
        (x + 1, y - 1),
        (x - 1, y + 1),
        (x, y + 1),
        (x + 1, y + 1),
        (x - 1, y),
        (x + 1, y),
    ]
}

/// How many of the positions `ps` hold a mine on the board.
pub open spec fn mines_in(k: Seq<CellType>, w: int, h: int, ps: Seq<(int, int)>) -> int
    decreases ps.len(),
{
    if ps.len() == 0 {
        0
    } else {
        mines_in(k, w, h, ps.drop_last()) + if mine_at(k, w, h, ps.last().0, ps.last().1) {
            1int
        } else {
            0int
        }
    }
}

/// Number of mines in the Moore neighbourhood of `(x, y)`, out-of-bounds positions skipped.
pub open spec fn adjacent_mines(k: Seq<CellType>, w: int, h: int, x: int, y: int) -> int {
    mines_in(k, w, h, neighbors_of(x, y))
}

/// Every cell without a mine holds the number of mines around it.
pub open spec fn counts_correct(k: Seq<CellType>, w: int, h: int) -> bool {
    forall|x: int, y: int|
        #![trigger k[idx(w, x, y)]]
        in_bounds(w, h, x, y) && !(k[idx(w, x, y)] is Mine) ==> k[idx(w, x, y)] == CellType::Count(
            adjacent_mines(k, w, h, x, y) as u8,
        )
}

pub open spec fn adjacent(x: int, y: int, px: int, py: int) -> bool {
    -1 <= px - x <= 1 && -1 <= py - y <= 1 && !(px == x && py == y)
}

impl GameView {
    pub open spec fn kinds(&self) -> Seq<CellType> {
        kinds_of(self.grid)
    }

    pub open spec fn states(&self) -> Seq<CellState> {
        states_of(self.grid)
    }

    pub open spec fn len(&self) -> int {
        self.width * self.height
    }

    /// Sizes in range, one cell per position, cursor on the board.
    pub open spec fn shaped(&self) -> bool {
        &&& 0 < self.width <= 127
        &&& 0 < self.height <= 127
        &&& self.grid.len() == self.width * self.height
        &&& 0 <= self.cursor_x < self.width
        &&& 0 <= self.cursor_y < self.height
    }

    pub open spec fn wf(&self) -> bool {
        &&& self.shaped()
        &&& counts_correct(self.kinds(), self.width, self.height)
        &&& self.mine_count == count_mines(self.kinds())
        &&& self.correct_flag_count == count_flagged_mines(self.grid)
    }

    pub open spec fn cell(&self, x: int, y: int) -> Cell {
        self.grid[idx(self.width, x, y)]
    }
}

// ---------------------------------------------------------------------------
// Index arithmetic

pub proof fn lemma_len_bound(v: GameView)
    requires
        v.shaped(),
    ensures
        v.grid.len() <= 127 * 127,
{
    assert(v.width * v.height <= 127 * 127) by (nonlinear_arith)
        requires 0 < v.width <= 127, 0 < v.height <= 127;
}

pub proof fn lemma_idx_bounds(w: int, h: int, x: int, y: int)
    requires
        in_bounds(w, h, x, y),
    ensures
        0 <= idx(w, x, y) < w * h,
        idx(w, x, y) % w == x,
        idx(w, x, y) / w == y,
{
    assert(0 <= y * w <= (h - 1) * w) by (nonlinear_arith)
        requires 0 <= y < h, 0 < w;
    assert((h - 1) * w + w == w * h) by (nonlinear_arith);
    vstd::arithmetic::div_mod::lemma_fundamental_div_mod_converse(x + y * w, w, y, x);
}

pub proof fn lemma_idx_injective(w: int, h: int, x1: int, y1: int, x2: int, y2: int)
    requires
        in_bounds(w, h, x1, y1),
        in_bounds(w, h, x2, y2),
        idx(w, x1, y1) == idx(w, x2, y2),
    ensures
        x1 == x2 && y1 == y2,
{
    lemma_idx_bounds(w, h, x1, y1);
    lemma_idx_bounds(w, h, x2, y2);
}

pub proof fn lemma_index_split(w: int, h: int, i: int)
    requires
        0 < w,
        0 < h,
        0 <= i < w * h,
    ensures
        in_bounds(w, h, i % w, i / w),
        idx(w, i % w, i / w) == i,
{
    vstd::arithmetic::div_mod::lemma_fundamental_div_mod(i, w);
    let q = i / w;
    let r = i % w;
    assert(0 <= q < h) by (nonlinear_arith)
        requires i == w * q + r, 0 <= r < w, 0 <= i < w * h, 0 < w;
    assert(q * w == w * q) by (nonlinear_arith);
}


pub proof fn lemma_mines_in_range(k: Seq<CellType>, w: int, h: int, ps: Seq<(int, int)>)
    ensures
        0 <= mines_in(k, w, h, ps) <= ps.len(),
    decreases ps.len(),
{
    if ps.len() > 0 {
        lemma_mines_in_range(k, w, h, ps.drop_last());
    }
}

pub proof fn lemma_mines_in_zero(k: Seq<CellType>, w: int, h: int, ps: Seq<(int, int)>)
    requires
        mines_in(k, w, h, ps) == 0,
    ensures
        forall|j: int| 0 <= j < ps.len() ==> !mine_at(k, w, h, #[trigger] ps[j].0, ps[j].1),
    decreases ps.len(),
{
    if ps.len() > 0 {
        lemma_mines_in_range(k, w, h, ps.drop_last());
        lemma_mines_in_zero(k, w, h, ps.drop_last());
        assert forall|j: int| 0 <= j < ps.len() implies !mine_at(k, w, h, #[trigger] ps[j].0, ps[j].1) by {
            if j < ps.len() - 1 {
                assert(ps.drop_last()[j] == ps[j]);
            }
        }
    }
}

/// Two boards whose mines lie in the same places have the same counts around every position.
pub proof fn lemma_mines_in_same(k1: Seq<CellType>, k2: Seq<CellType>, w: int, h: int, ps: Seq<(int, int)>)
    requires
        k1.len() == k2.len(),
        k1.len() == w * h,
        forall|i: int| 0 <= i < k1.len() ==> (#[trigger] k1[i] is Mine) == (k2[i] is Mine),
    ensures
        mines_in(k1, w, h, ps) == mines_in(k2, w, h, ps),
    decreases ps.len(),
{
    if ps.len() > 0 {
        lemma_mines_in_same(k1, k2, w, h, ps.drop_last());
        let (x, y) = ps.last();
        if in_bounds(w, h, x, y) {
            lemma_idx_bounds(w, h, x, y);
            assert((k1[idx(w, x, y)] is Mine) == (k2[idx(w, x, y)] is Mine));
        }
    }
}

/// Which of the eight neighbours `(px, py)` is, in the order of `neighbors_of`.
pub proof fn lemma_adjacent_is_neighbor(x: int, y: int, px: int, py: int) -> (j: int)
    requires
        adjacent(x, y, px, py),
    ensures
        0 <= j < 8,
        neighbors_of(x, y)[j] == (px, py),
{
    if py == y - 1 {
        if px == x - 1 { 0 } else if px == x { 1 } else { 2 }
    } else if py == y + 1 {
        if px == x - 1 { 3 } else if px == x { 4 } else { 5 }
    } else {
        if px == x - 1 { 6 } else { 7 }
    }
}


/// The flag action on one cell: a hidden cell becomes flagged, a flagged one hidden again,
/// a revealed one stays as it is.
pub open spec fn toggled(c: Cell) -> Cell {
    match c.state {
        CellState::Hidden => Cell { state: CellState::Flagged, ..c },
        CellState::Flagged => Cell { state: CellState::Hidden, ..c },
        CellState::Revealed => c,
    }
}

pub open spec fn toggle_flag_at(g: Seq<Cell>, i: int) -> Seq<Cell> {
    g.update(i, toggled(g[i]))
}


pub open spec fn open_at(s: Seq<CellState>, w: int, h: int, x: int, y: int) -> bool {
    in_bounds(w, h, x, y) && s[idx(w, x, y)] != CellState::Revealed
}

pub open spec fn blank_at(k: Seq<CellType>, w: int, x: int, y: int) -> bool {
    k[idx(w, x, y)] == CellType::Count(0)
}

/// `(x, y)` is an unrevealed cell that the flood from `(sx, sy)` reaches in at most `n`
/// steps, each step leaving an unrevealed cell with no mine around it.
pub open spec fn reach_within(
    k: Seq<CellType>,
    s: Seq<CellState>,
    w: int,
    h: int,
    sx: int,
    sy: int,
    x: int,
    y: int,
    n: nat,
) -> bool
    decreases n,
{
    open_at(s, w, h, x, y) && ((x == sx && y == sy) || (n > 0 && exists|px: int, py: int|
        #[trigger] adjacent(x, y, px, py) && blank_at(k, w, px, py) && reach_within(
            k,
            s,
            w,
            h,
            sx,
            sy,
            px,
            py,
            (n - 1) as nat,
        )))
}

pub open spec fn reachable(
    k: Seq<CellType>,
    s: Seq<CellState>,
    w: int,
    h: int,
    sx: int,
    sy: int,
    x: int,
    y: int,
) -> bool {
    exists|n: nat| #[trigger] reach_within(k, s, w, h, sx, sy, x, y, n)
}

/// The cell states after a flood fill from `(sx, sy)`: every reachable cell is revealed,
/// every other cell keeps its state.
pub open spec fn revealed_after(
    k: Seq<CellType>,
    s: Seq<CellState>,
    w: int,
    h: int,
    sx: int,
    sy: int,
) -> Seq<CellState> {
    Seq::new(
        s.len(),
        |i: int|
            if reachable(k, s, w, h, sx, sy, i % w, i / w) {
                CellState::Revealed
            } else {
                s[i]
            },
    )
}

/// A flood started on a cell without a mine only ever reaches cells without a mine.
pub proof fn lemma_reach_avoids_mines(
    k: Seq<CellType>,
    s: Seq<CellState>,
    w: int,
    h: int,
    sx: int,
    sy: int,
    x: int,
    y: int,
    n: nat,
)
    requires
        0 < w,
        0 < h,
        k.len() == w * h,
        counts_correct(k, w, h),
        in_bounds(w, h, sx, sy),
        !(k[idx(w, sx, sy)] is Mine),
        reach_within(k, s, w, h, sx, sy, x, y, n),
    ensures
        !mine_at(k, w, h, x, y),
{
    if !(x == sx && y == sy) {
        let (px, py) = choose|px: int, py: int|
            #[trigger] adjacent(x, y, px, py) && blank_at(k, w, px, py) && reach_within(
                k,
                s,
                w,
                h,
                sx,
                sy,
                px,
                py,
                (n - 1) as nat,
            );
        assert(open_at(s, w, h, px, py));
        lemma_idx_bounds(w, h, px, py);
        assert(k[idx(w, px, py)] == CellType::Count(adjacent_mines(k, w, h, px, py) as u8));
        lemma_mines_in_range(k, w, h, neighbors_of(px, py));
        assert(adjacent_mines(k, w, h, px, py) == 0);
        lemma_mines_in_zero(k, w, h, neighbors_of(px, py));
        let j = lemma_adjacent_is_neighbor(px, py, x, y);
        assert(neighbors_of(px, py)[j] == (x, y));
        assert(!mine_at(k, w, h, neighbors_of(px, py)[j].0, neighbors_of(px, py)[j].1));
    }
}

/// Nothing is reachable from a start cell that is already revealed.
pub proof fn lemma_reach_needs_open_start(
    k: Seq<CellType>,
    s: Seq<CellState>,
    w: int,
    h: int,
    sx: int,
    sy: int,
    x: int,
    y: int,
    n: nat,
)
    requires
        !open_at(s, w, h, sx, sy),
    ensures
        !reach_within(k, s, w, h, sx, sy, x, y, n),
    decreases n,
{
    if reach_within(k, s, w, h, sx, sy, x, y, n) && !(x == sx && y == sy) {
        let (px, py) = choose|px: int, py: int|
            #[trigger] adjacent(x, y, px, py) && blank_at(k, w, px, py) && reach_within(
                k,
                s,
                w,
                h,
                sx,
                sy,
                px,
                py,
                (n - 1) as nat,
            );
        lemma_reach_needs_open_start(k, s, w, h, sx, sy, px, py, (n - 1) as nat);
    }
}


/// If the start is revealed and every newly revealed blank cell has all its neighbours
/// revealed, then every cell reachable from the start is revealed.
pub proof fn lemma_reach_revealed(
    k: Seq<CellType>,
    s0: Seq<CellState>,
    s: Seq<CellState>,
    w: int,
    h: int,
    sx: int,
    sy: int,
    x: int,
    y: int,
    n: nat,
)
    requires
        in_bounds(w, h, sx, sy),
        s[idx(w, sx, sy)] == CellState::Revealed,
        forall|px: int, py: int, qx: int, qy: int|
            #[trigger] adjacent(px, py, qx, qy) && in_bounds(w, h, qx, qy) && open_at(s0, w, h, px, py)
                && s[idx(w, px, py)] == CellState::Revealed && blank_at(k, w, px, py)
                ==> s[idx(w, qx, qy)] == CellState::Revealed,
        reach_within(k, s0, w, h, sx, sy, x, y, n),
    ensures
        s[idx(w, x, y)] == CellState::Revealed,
    decreases n,
{
    if !(x == sx && y == sy) {
        let (px, py) = choose|px: int, py: int|
            #[trigger] adjacent(x, y, px, py) && blank_at(k, w, px, py) && reach_within(
                k,
                s0,
                w,
                h,
                sx,
                sy,
                px,
                py,
                (n - 1) as nat,
            );
        lemma_reach_revealed(k, s0, s, w, h, sx, sy, px, py, (n - 1) as nat);
        assert(adjacent(px, py, x, y));
    }
}

/// What a flag action at `(x, y)` leads to: the toggled board, its count of flagged mines,
/// and a win exactly when that count equals the number of mines.
pub open spec fn flag_post(v: GameView, x: int, y: int, nv: GameView, r: VictoryState) -> bool {
    let t = toggle_flag_at(v.grid, idx(v.width, x, y));
    &&& nv == (GameView { grid: t, correct_flag_count: count_flagged_mines(t) as int, ..v })
    &&& r == if count_flagged_mines(t) == v.mine_count {
        VictoryState::Won
    } else {
        VictoryState::Continue
    }
}

/// What opening `(x, y)` leads to: on a mine the game is over and unchanged; otherwise the
/// flood fill from there, with the cell contents kept.
pub open spec fn click_post(v: GameView, x: int, y: int, nv: GameView, r: VictoryState) -> bool {
    if v.cell(x, y).cell_type is Mine {
        r == VictoryState::Over && nv == v
    } else {
        &&& r == VictoryState::Continue
        &&& nv == (GameView { grid: nv.grid, ..v })
        &&& nv.kinds() == v.kinds()
        &&& nv.states() == revealed_after(v.kinds(), v.states(), v.width, v.height, x, y)
    }
}

/// What starting over leads to: same sizes and density, mines laid anew, every cell hidden,
/// no flags, the cursor at the centre.
pub open spec fn restart_post(v: GameView, nv: GameView) -> bool {
    &&& nv.wf()
    &&& nv.width == v.width
    &&& nv.height == v.height
    &&& nv.mine_percent == v.mine_percent
    &&& nv.grid.len() == v.grid.len()
    &&& nv.cursor_x == v.width / 2
    &&& nv.cursor_y == v.height / 2
    &&& nv.correct_flag_count == 0
    &&& forall|i: int| 0 <= i < nv.grid.len() ==> (#[trigger] nv.grid[i]).state == CellState::Hidden
}


/// The flood spreads only through cells without a mine around them: every cell other than
/// the start that the fill newly reveals has a neighbour on the board, itself newly revealed,
/// that counts zero mines.
pub proof fn lemma_fill_spreads_through_blanks(
    k: Seq<CellType>,
    s: Seq<CellState>,
    w: int,
    h: int,
    sx: int,
    sy: int,
    qx: int,
    qy: int,
)
    requires
        0 < w,
        0 < h,
        s.len() == w * h,
        in_bounds(w, h, qx, qy),
        !(qx == sx && qy == sy),
        s[idx(w, qx, qy)] != CellState::Revealed,
        revealed_after(k, s, w, h, sx, sy)[idx(w, qx, qy)] == CellState::Revealed,
    ensures
        exists|px: int, py: int|
            #[trigger] adjacent(qx, qy, px, py) && in_bounds(w, h, px, py) && blank_at(k, w, px, py)
                && s[idx(w, px, py)] != CellState::Revealed
                && revealed_after(k, s, w, h, sx, sy)[idx(w, px, py)] == CellState::Revealed,
{
    let r = revealed_after(k, s, w, h, sx, sy);
    lemma_idx_bounds(w, h, qx, qy);
    assert(reachable(k, s, w, h, sx, sy, qx, qy));
    let n = choose|n: nat| #[trigger] reach_within(k, s, w, h, sx, sy, qx, qy, n);
    let (px, py) = choose|px: int, py: int|
        #[trigger] adjacent(qx, qy, px, py) && blank_at(k, w, px, py) && reach_within(
            k,
            s,
            w,
            h,
            sx,
            sy,
            px,
            py,
            (n - 1) as nat,
        );
    assert(open_at(s, w, h, px, py));
    lemma_idx_bounds(w, h, px, py);
    assert(reachable(k, s, w, h, sx, sy, px, py));
    assert(r[idx(w, px, py)] == CellState::Revealed);
    assert(adjacent(qx, qy, px, py));
}

/// How many mines a board of `n` cells aims at with a density of `p` percent.
pub open spec fn target_mines(p: int, n: int) -> int {
    if p <= 0 {
        0
    } else {
        p * n / 100
    }
}

/// Relies on rand's `Rng::gen_range` on the thread-local generator: a value in `0..n`.
/// It panics on an empty range, hence `n > 0`.
#[verifier::external_body]
fn random_below(n: usize) -> (r: usize)
    requires
        n > 0,
    ensures
        r < n,
{
    rand::thread_rng().gen_range(0..n)
}

impl Game {
    /// The eight positions around `(x, y)`.
    pub fn get_adjacents_slice(&self, x: i8, y: i8) -> (r: [(i8, i8); 8])
        requires
            -127 <= x <= 126,
            -127 <= y <= 126,
        ensures
            forall|j: int| 0 <= j < 8 ==> (#[trigger] r@[j].0 as int, r@[j].1 as int) == neighbors_of(x as int, y as int)[j],
    {
        let above = y - 1;
        let below = y + 1;
        let left = x - 1;
        let right = x + 1;
        [
            (left, above),
            (x, above),
            (right, above),
            (left, below),
            (x, below),
            (right, below),
            (left, y),
            (right, y),
        ]
    }

    /// Whether `(ax, ay)` lies outside the board.
    pub fn is_oob(&self, ax: i8, ay: i8) -> (r: bool)
        ensures
            r == !in_bounds(self@.width, self@.height, ax as int, ay as int),
    {
        ax < 0 || ax >= self.width || ay < 0 || ay >= self.height
    }

    fn index_of(&self, x: i8, y: i8) -> (i: usize)
        requires
            self@.shaped(),
            in_bounds(self@.width, self@.height, x as int, y as int),
        ensures
            i as int == idx(self@.width, x as int, y as int),
            i < self@.grid.len(),
    {
        proof {
            lemma_idx_bounds(self.width as int, self.height as int, x as int, y as int);
            assert(y as int * self.width as int <= 127 * 127) by (nonlinear_arith)
                requires 0 <= y < self.height, 0 < self.width <= 127, self.height <= 127;
        }
        x as usize + y as usize * self.width as usize
    }

    /// The cell at column `x`, row `y`.
    pub fn get_cell(&self, x: i8, y: i8) -> (c: &Cell)
        requires
            self@.shaped(),
            in_bounds(self@.width, self@.height, x as int, y as int),
        ensures
            *c == self@.cell(x as int, y as int),
    {
        let i = self.index_of(x, y);
        &self.grid[i]
    }

    /// Moves the cursor by `(dx, dy)`, wrapping around the edges.
    pub fn move_cursor(&mut self, dx: i8, dy: i8) -> (r: VictoryState)
        requires
            old(self)@.wf(),
        ensures
            final(self)@.wf(),
            final(self)@ == (GameView {
                cursor_x: (old(self)@.cursor_x + dx + old(self)@.width) % old(self)@.width,
                cursor_y: (old(self)@.cursor_y + dy + old(self)@.height) % old(self)@.height,
                ..old(self)@
            }),
            r == VictoryState::Continue,
    {
        let w = self.width as u32;
        let h = self.height as u32;
        // Shifted by a multiple of the size so that the sum is never negative.
        let sx = (self.cursor_x as i32 + dx as i32 + 128 * self.width as i32) as u32;
        let sy = (self.cursor_y as i32 + dy as i32 + 128 * self.height as i32) as u32;
        proof {
            let ghost wi = self.width as int;
            let ghost hi = self.height as int;
            vstd::arithmetic::div_mod::lemma_mod_multiples_vanish(127, self.cursor_x + dx + wi, wi);
            vstd::arithmetic::div_mod::lemma_mod_multiples_vanish(127, self.cursor_y + dy + hi, hi);
            assert(wi * 127 + (self.cursor_x + dx + wi) == sx as int);
            assert(hi * 127 + (self.cursor_y + dy + hi) == sy as int);
        }
        self.cursor_x = (sx % w) as i8;
        self.cursor_y = (sy % h) as i8;
        VictoryState::Continue
    }

    /// Stores in the cell at `(x, y)`, unless it holds a mine, the number of mines around it.
    pub fn set_count_adjacent_mines(&mut self, x: i8, y: i8)
        requires
            old(self)@.shaped(),
            in_bounds(old(self)@.width, old(self)@.height, x as int, y as int),
        ensures
            old(self)@.cell(x as int, y as int).cell_type is Mine ==> final(self)@ == old(self)@,
            !(old(self)@.cell(x as int, y as int).cell_type is Mine) ==> final(self)@ == (GameView {
                grid: old(self)@.grid.update(
                    idx(old(self)@.width, x as int, y as int),
                    Cell {
                        state: old(self)@.cell(x as int, y as int).state,
                        cell_type: CellType::Count(
                            adjacent_mines(old(self)@.kinds(), old(self)@.width, old(self)@.height, x as int, y as int) as u8,
                        ),
                    },
                ),
                ..old(self)@
            }),
    {
        let i = self.index_of(x, y);
        if self.grid[i].cell_type != CellType::Mine {
            let ghost k = self@.kinds();
            let ghost w = self@.width;
            let ghost h = self@.height;
            let adj = self.get_adjacents_slice(x, y);
            let mut count: u8 = 0;
            let mut j: usize = 0;
            while j < 8
                invariant
                    j <= 8,
                    self@ == old(self)@,
                    self@.shaped(),
                    k == self@.kinds(),
                    w == self@.width,
                    h == self@.height,
                    forall|m: int| 0 <= m < 8 ==> (#[trigger] adj@[m].0 as int, adj@[m].1 as int) == neighbors_of(x as int, y as int)[m],
                    count as int == mines_in(k, w, h, neighbors_of(x as int, y as int).take(j as int)),
                decreases 8 - j,
            {
                let (ax, ay) = adj[j];
                proof {
                    let ps = neighbors_of(x as int, y as int);
                    assert(ps.take(j as int + 1).drop_last() =~= ps.take(j as int));
                    assert(ps.take(j as int + 1).last() == ps[j as int]);
                    lemma_mines_in_range(k, w, h, ps.take(j as int));
                    assert((adj@[j as int].0 as int, adj@[j as int].1 as int) == ps[j as int]);
                    if in_bounds(w, h, ax as int, ay as int) {
                        lemma_idx_bounds(w, h, ax as int, ay as int);
                    }
                }
                if !self.is_oob(ax, ay) {
                    let c = self.get_cell(ax, ay);
                    if c.cell_type == CellType::Mine {
                        count = count + 1;
                    }
                }
                j = j + 1;
            }
            proof {
                assert(neighbors_of(x as int, y as int).take(8) =~= neighbors_of(x as int, y as int));
            }
            let state = self.grid[i].state;
            self.grid.set(i, Cell { state, cell_type: CellType::Count(count) });
        }
    }
}

impl Game {
    /// Flags a hidden cell, or unflags a flagged one; a revealed cell is left alone.
    /// The game is won when the flagged mines are exactly as many as the mines.
    pub fn flag(&mut self, x: i8, y: i8) -> (r: VictoryState)
        requires
            old(self)@.wf(),
            in_bounds(old(self)@.width, old(self)@.height, x as int, y as int),
        ensures
            final(self)@.wf(),
            final(self)@ == (GameView {
                grid: toggle_flag_at(old(self)@.grid, idx(old(self)@.width, x as int, y as int)),
                correct_flag_count: count_flagged_mines(
                    toggle_flag_at(old(self)@.grid, idx(old(self)@.width, x as int, y as int)),
                ) as int,
                ..old(self)@
            }),
            r == if final(self)@.correct_flag_count == old(self)@.mine_count {
                VictoryState::Won
            } else {
                VictoryState::Continue
            },
            flag_post(old(self)@, x as int, y as int, final(self)@, r),
    {
        let i = self.index_of(x, y);
        let ghost g0 = self.grid@;
        let c = self.grid[i];
        proof {
            let g1 = toggle_flag_at(g0, i as int);
            assert(kinds_of(g1) =~= kinds_of(g0));
            lemma_count_update(g0, is_flagged_mine(), i as int, toggled(g0[i as int]));
            lemma_count_le_len(g1, is_flagged_mine());
            lemma_len_bound(self@);
        }
        match c.state {
            CellState::Hidden => {
                self.grid.set(i, Cell { state: CellState::Flagged, ..c });
                if c.cell_type == CellType::Mine {
                    self.correct_flag_count = self.correct_flag_count + 1;
                }
            },
            CellState::Flagged => {
                self.grid.set(i, Cell { state: CellState::Hidden, ..c });
                if c.cell_type == CellType::Mine {
                    self.correct_flag_count = self.correct_flag_count - 1;
                }
            },
            CellState::Revealed => {},
        }
        proof {
            assert(self.grid@ =~= toggle_flag_at(g0, i as int));
        }
        if self.correct_flag_count == self.mine_count {
            VictoryState::Won
        } else {
            VictoryState::Continue
        }
    }

    /// Flags or unflags the cell under the cursor.
    pub fn flag_at_cursor(&mut self) -> (r: VictoryState)
        requires
            old(self)@.wf(),
        ensures
            final(self)@.wf(),
            final(self)@ == (GameView {
                grid: toggle_flag_at(old(self)@.grid, idx(old(self)@.width, old(self)@.cursor_x, old(self)@.cursor_y)),
                correct_flag_count: count_flagged_mines(
                    toggle_flag_at(old(self)@.grid, idx(old(self)@.width, old(self)@.cursor_x, old(self)@.cursor_y)),
                ) as int,
                ..old(self)@
            }),
            r == if final(self)@.correct_flag_count == old(self)@.mine_count {
                VictoryState::Won
            } else {
                VictoryState::Continue
            },
    {
        let x = self.cursor_x;
        let y = self.cursor_y;
        self.flag(x, y)
    }

    /// Lays the mines anew, one draw per cell: a cell gets a mine when its draw is below the
    /// target count. Every cell is hidden again, the counts around mines are recomputed, and
    /// no flag is left.
    pub fn reset_with_draws(&mut self, draws: &Vec<usize>)
        requires
            old(self)@.shaped(),
            draws@.len() == old(self)@.grid.len(),
        ensures
            final(self)@.wf(),
            final(self)@.width == old(self)@.width,
            final(self)@.height == old(self)@.height,
            final(self)@.cursor_x == old(self)@.cursor_x,
            final(self)@.cursor_y == old(self)@.cursor_y,
            final(self)@.mine_percent == old(self)@.mine_percent,
            final(self)@.correct_flag_count == 0,
            final(self)@.grid.len() == old(self)@.grid.len(),
            forall|i: int| 0 <= i < final(self)@.grid.len() ==> (#[trigger] final(self)@.grid[i]).state == CellState::Hidden,
            forall|i: int| 0 <= i < final(self)@.grid.len() ==>
                ((#[trigger] final(self)@.grid[i]).cell_type is Mine) == (draws@[i] < target_mines(old(self)@.mine_percent, old(self)@.grid.len() as int)),
    {
        let n = self.grid.len();
        let target: usize = if self.mine_percent <= 0 {
            0
        } else {
            proof {
                assert(self.mine_percent as int * n <= 127 * (127 * 127)) by (nonlinear_arith)
                    requires 0 < self.mine_percent <= 127, n == self.width as int * self.height as int,
                        0 < self.width <= 127, 0 < self.height <= 127;
            }
            self.mine_percent as usize * n / 100
        };
        let ghost t = target_mines(self@.mine_percent, n as int);
        self.mine_count = 0;
        self.correct_flag_count = 0;
        let mut i: usize = 0;
        while i < n
            invariant
                i <= n,
                n == self.grid@.len(),
                target as int == t,
                self@.shaped(),
                self@.width == old(self)@.width,
                self@.height == old(self)@.height,
                self@.cursor_x == old(self)@.cursor_x,
                self@.cursor_y == old(self)@.cursor_y,
                self@.mine_percent == old(self)@.mine_percent,
                self@.correct_flag_count == 0,
                draws@.len() == n,
                forall|j: int| 0 <= j < i ==> (#[trigger] self.grid@[j]).state == CellState::Hidden,
                forall|j: int| 0 <= j < i ==> ((#[trigger] self.grid@[j]).cell_type is Mine) == (draws@[j] < t),
                self.mine_count as int == count_mines(kinds_of(self.grid@).take(i as int)),
            decreases n - i,
        {
            let mine = draws[i] < target;
            let ghost g0 = self.grid@;
            let cell_type = if mine { CellType::Mine } else { CellType::Count(0) };
            self.grid.set(i, Cell { state: CellState::Hidden, cell_type });
            proof {
                assert(kinds_of(self.grid@).take(i as int) =~= kinds_of(g0).take(i as int));
                lemma_count_take_step(kinds_of(self.grid@), is_mine(), i as int);
                lemma_count_le_len(kinds_of(self.grid@).take(i as int), is_mine());
                assert(kinds_of(self.grid@)[i as int] == cell_type);
                assert(count_mines(kinds_of(self.grid@).take(i as int)) == self.mine_count);
            }
            if mine {
                self.mine_count = self.mine_count + 1;
            }
            i = i + 1;
        }
        proof {
            assert(kinds_of(self.grid@).take(n as int) =~= kinds_of(self.grid@));
        }
        let ghost g1 = self.grid@;
        let mut y: i8 = 0;
        while y < self.height
            invariant
                0 <= y <= self@.height,
                self@.shaped(),
                self@.width == old(self)@.width,
                self@.height == old(self)@.height,
                self@.cursor_x == old(self)@.cursor_x,
                self@.cursor_y == old(self)@.cursor_y,
                self@.mine_percent == old(self)@.mine_percent,
                self@.correct_flag_count == 0,
                self.grid@.len() == n,
                draws@.len() == n,
                forall|j: int| 0 <= j < n ==> (#[trigger] self.grid@[j]).state == CellState::Hidden,
                forall|j: int| 0 <= j < n ==> ((#[trigger] self.grid@[j]).cell_type is Mine) == (draws@[j] < t),
                self.mine_count as int == count_mines(self@.kinds()),
                forall|px: int, py: int|
                    #![trigger self@.kinds()[idx(self@.width, px, py)]]
                    in_bounds(self@.width, self@.height, px, py) && py < y && !(self@.kinds()[idx(self@.width, px, py)] is Mine)
                        ==> self@.kinds()[idx(self@.width, px, py)] == CellType::Count(
                        adjacent_mines(self@.kinds(), self@.width, self@.height, px, py) as u8),
            decreases self@.height - y,
        {
            let mut x: i8 = 0;
            while x < self.width
                invariant
                    0 <= y < self@.height,
                    0 <= x <= self@.width,
                    self@.shaped(),
                    self@.width == old(self)@.width,
                    self@.height == old(self)@.height,
                    self@.cursor_x == old(self)@.cursor_x,
                    self@.cursor_y == old(self)@.cursor_y,
                    self@.mine_percent == old(self)@.mine_percent,
                    self@.correct_flag_count == 0,
                    self.grid@.len() == n,
                    draws@.len() == n,
                    forall|j: int| 0 <= j < n ==> (#[trigger] self.grid@[j]).state == CellState::Hidden,
                    forall|j: int| 0 <= j < n ==> ((#[trigger] self.grid@[j]).cell_type is Mine) == (draws@[j] < t),
                    self.mine_count as int == count_mines(self@.kinds()),
                    forall|px: int, py: int|
                        #![trigger self@.kinds()[idx(self@.width, px, py)]]
                        in_bounds(self@.width, self@.height, px, py) && (py < y || (py == y && px < x))
                            && !(self@.kinds()[idx(self@.width, px, py)] is Mine)
                            ==> self@.kinds()[idx(self@.width, px, py)] == CellType::Count(
                            adjacent_mines(self@.kinds(), self@.width, self@.height, px, py) as u8),
                decreases self@.width - x,
            {
                let ghost v0 = self@;
                self.set_count_adjacent_mines(x, y);
                proof {
                    let w = v0.width;
                    let h = v0.height;
                    let k0 = v0.kinds();
                    let k1 = self@.kinds();
                    let i0 = idx(w, x as int, y as int);
                    lemma_idx_bounds(w, h, x as int, y as int);
                    if !(k0[i0] is Mine) {
                        assert(k1 =~= k0.update(i0, k1[i0]));
                        lemma_count_update(k0, is_mine(), i0, k1[i0]);
                    }
                    assert forall|j: int| 0 <= j < n implies (#[trigger] k1[j] is Mine) == (k0[j] is Mine) by {
                        assert(self.grid@[j].cell_type == k1[j]);
                        assert(v0.grid[j].cell_type == k0[j]);
                    }
                    assert forall|px: int, py: int|
                        #![trigger k1[idx(w, px, py)]]
                        in_bounds(w, h, px, py) && (py < y || (py == y && px < x + 1)) && !(k1[idx(w, px, py)] is Mine)
                            implies k1[idx(w, px, py)] == CellType::Count(adjacent_mines(k1, w, h, px, py) as u8) by {
                        lemma_mines_in_same(k0, k1, w, h, neighbors_of(px, py));
                        lemma_idx_bounds(w, h, px, py);
                        if px != x || py != y {
                            if idx(w, px, py) == i0 {
                                lemma_idx_injective(w, h, px, py, x as int, y as int);
                            }
                            assert(k1[idx(w, px, py)] == k0[idx(w, px, py)]);
                        }
                    }
                }
                x = x + 1;
            }
            y = y + 1;
        }
        proof {
            lemma_count_none(self.grid@, is_flagged_mine());
        }
    }
}

impl Game {
    fn blank(width: i8, height: i8, mine_percent: i8) -> (g: Game)
        requires
            0 < width,
            0 < height,
        ensures
            g@.shaped(),
            g@.width == width,
            g@.height == height,
            g@.mine_percent == mine_percent,
            g@.cursor_x == width / 2,
            g@.cursor_y == height / 2,
    {
        proof {
            assert(width as int * height as int <= 127 * 127) by (nonlinear_arith)
                requires 0 < width <= 127, 0 < height <= 127;
        }
        let n = width as usize * height as usize;
        let mut grid: Vec<Cell> = Vec::new();
        let mut i: usize = 0;
        while i < n
            invariant
                i <= n,
                grid@.len() == i,
            decreases n - i,
        {
            grid.push(Cell { state: CellState::Hidden, cell_type: CellType::Count(0) });
            i = i + 1;
        }
        Game {
            cursor_x: width / 2,
            cursor_y: height / 2,
            width,
            height,
            mine_percent,
            mine_count: 0,
            correct_flag_count: 0,
            grid,
        }
    }

    /// Builds a board whose mines are laid from the given draws, one per cell in row-major
    /// order (see `reset_with_draws`). The cursor starts at the centre.
    pub fn with_draws(width: i8, height: i8, mine_percent: i8, draws: &Vec<usize>) -> (r: Result<Game, GameError>)
        requires
            0 < width && 0 < height ==> draws@.len() == width * height,
        ensures
            r is Err <==> (width <= 0 || height <= 0),
            r is Err ==> r == Err::<Game, GameError>(GameError::InvalidDimensions),
            r matches Ok(g) ==> {
                &&& g@.wf()
                &&& g@.width == width
                &&& g@.height == height
                &&& g@.mine_percent == mine_percent
                &&& g@.cursor_x == width / 2
                &&& g@.cursor_y == height / 2
                &&& g@.correct_flag_count == 0
                &&& forall|i: int| 0 <= i < g@.grid.len() ==> (#[trigger] g@.grid[i]).state == CellState::Hidden
                &&& forall|i: int| 0 <= i < g@.grid.len() ==>
                    ((#[trigger] g@.grid[i]).cell_type is Mine) == (draws@[i] < target_mines(mine_percent as int, g@.grid.len() as int))
            },
    {
        if width <= 0 || height <= 0 {
            return Err(GameError::InvalidDimensions);
        }
        let mut g = Game::blank(width, height, mine_percent);
        g.reset_with_draws(draws);
        Ok(g)
    }

    /// Lays the mines anew at random (see `reset_with_draws`), hides every cell and clears
    /// the flags. The cursor stays where it is.
    pub fn reset_mines_and_counts(&mut self)
        requires
            old(self)@.shaped(),
        ensures
            final(self)@.wf(),
            final(self)@.width == old(self)@.width,
            final(self)@.height == old(self)@.height,
            final(self)@.cursor_x == old(self)@.cursor_x,
            final(self)@.cursor_y == old(self)@.cursor_y,
            final(self)@.mine_percent == old(self)@.mine_percent,
            final(self)@.correct_flag_count == 0,
            forall|i: int| 0 <= i < final(self)@.grid.len() ==> (#[trigger] final(self)@.grid[i]).state == CellState::Hidden,
            target_mines(old(self)@.mine_percent, old(self)@.grid.len() as int) == 0 ==> final(self)@.mine_count == 0,
            target_mines(old(self)@.mine_percent, old(self)@.grid.len() as int) >= old(self)@.grid.len() ==>
                final(self)@.mine_count == final(self)@.grid.len(),
    {
        let n = self.grid.len();
        proof {
            assert(self@.width * self@.height > 0) by (nonlinear_arith)
                requires self@.width > 0, self@.height > 0;
        }
        let mut draws: Vec<usize> = Vec::new();
        let mut i: usize = 0;
        while i < n
            invariant
                i <= n,
                n == self.grid@.len(),
                n > 0,
                draws@.len() == i,
                forall|j: int| 0 <= j < i ==> #[trigger] draws@[j] < n,
            decreases n - i,
        {
            let d = random_below(n);
            draws.push(d);
            i = i + 1;
        }
        self.reset_with_draws(&draws);
        proof {
            let t = target_mines(self@.mine_percent, n as int);
            let k = self@.kinds();
            if t == 0 {
                lemma_count_none(k, is_mine());
            }
            if t >= n {
                assert(forall|j: int| 0 <= j < n ==> #[trigger] k[j] is Mine);
                lemma_count_all(k, is_mine());
            }
        }
    }

    /// Builds a board of `width` by `height` cells with mines laid at random; the cursor
    /// starts at the centre. Sizes must be positive.
    pub fn new(width: i8, height: i8, mine_percent: i8) -> (r: Result<Game, GameError>)
        ensures
            r is Err <==> (width <= 0 || height <= 0),
            r is Err ==> r == Err::<Game, GameError>(GameError::InvalidDimensions),
            r matches Ok(g) ==> {
                &&& g@.wf()
                &&& g@.width == width
                &&& g@.height == height
                &&& g@.mine_percent == mine_percent
                &&& g@.cursor_x == width / 2
                &&& g@.cursor_y == height / 2
                &&& g@.correct_flag_count == 0
                &&& forall|i: int| 0 <= i < g@.grid.len() ==> (#[trigger] g@.grid[i]).state == CellState::Hidden
                &&& mine_percent <= 0 ==> g@.mine_count == 0
                &&& mine_percent >= 100 ==> g@.mine_count == g@.grid.len()
            },
    {
        if width <= 0 || height <= 0 {
            return Err(GameError::InvalidDimensions);
        }
        let mut g = Game::blank(width, height, mine_percent);
        proof {
            let n = g@.grid.len() as int;
            if mine_percent >= 100 {
                assert(mine_percent * n >= 100 * n) by (nonlinear_arith)
                    requires mine_percent >= 100, n >= 0;
                vstd::arithmetic::div_mod::lemma_div_is_ordered(100 * n, mine_percent * n, 100);
                vstd::arithmetic::div_mod::lemma_div_multiples_vanish(n, 100);
            }
        }
        g.reset_mines_and_counts();
        Ok(g)
    }

    /// Starts a new round on the same board: mines laid anew at random, every cell hidden,
    /// flags cleared, cursor back at the centre.
    pub fn restart(&mut self)
        requires
            old(self)@.wf(),
        ensures
            final(self)@.wf(),
            final(self)@.width == old(self)@.width,
            final(self)@.height == old(self)@.height,
            final(self)@.mine_percent == old(self)@.mine_percent,
            final(self)@.cursor_x == old(self)@.width / 2,
            final(self)@.cursor_y == old(self)@.height / 2,
            final(self)@.correct_flag_count == 0,
            forall|i: int| 0 <= i < final(self)@.grid.len() ==> (#[trigger] final(self)@.grid[i]).state == CellState::Hidden,
            restart_post(old(self)@, final(self)@),
    {
        self.reset_mines_and_counts();
        self.cursor_x = self.width / 2;
        self.cursor_y = self.height / 2;
    }
}

/// Appends the eight positions to the queue, in order.
fn push_neighbors(queue: &mut Vec<(i8, i8)>, adj: &[(i8, i8); 8])
    ensures
        final(queue)@ == old(queue)@ + adj@,
{
    let mut j: usize = 0;
    while j < 8
        invariant
            j <= 8,
            queue@ == old(queue)@ + adj@.take(j as int),
        decreases 8 - j,
    {
        queue.push(adj[j]);
        proof {
            assert(adj@.take(j as int + 1) =~= adj@.take(j as int).push(adj@[j as int]));
        }
        j = j + 1;
    }
    proof {
        assert(adj@.take(8) =~= adj@);
    }
}

impl Game {
    /// Breadth-first flood fill from `(x, y)`: reveals the start and, through every newly
    /// revealed cell with no mine around it, its neighbours. Cells already revealed stop
    /// the flood. The start must hold no mine.
    pub fn reveal_from(&mut self, x: i8, y: i8)
        requires
            old(self)@.wf(),
            in_bounds(old(self)@.width, old(self)@.height, x as int, y as int),
            !(old(self)@.cell(x as int, y as int).cell_type is Mine),
        ensures
            final(self)@.wf(),
            final(self)@ == (GameView { grid: final(self)@.grid, ..old(self)@ }),
            final(self)@.kinds() == old(self)@.kinds(),
            final(self)@.states() == revealed_after(
                old(self)@.kinds(),
                old(self)@.states(),
                old(self)@.width,
                old(self)@.height,
                x as int,
                y as int,
            ),
            forall|i: int| 0 <= i < old(self)@.grid.len() && (#[trigger] old(self)@.grid[i]).cell_type is Mine
                ==> final(self)@.grid[i] == old(self)@.grid[i],
    {
        let ghost k = self@.kinds();
        let ghost s0 = self@.states();
        let ghost w = self@.width;
        let ghost h = self@.height;
        let ghost n = self@.grid.len();
        let ghost sx = x as int;
        let ghost sy = y as int;
        proof {
            lemma_len_bound(self@);
            lemma_count_le_len(s0, is_unrevealed());
            lemma_idx_bounds(w, h, sx, sy);
        }
        let mut queue: Vec<(i8, i8)> = Vec::new();
        queue.push((x, y));
        let ghost mut qd: Seq<nat> = seq![0nat];
        let ghost mut wit: Seq<nat> = Seq::new(n as nat, |i: int| 0nat);
        let ghost mut pa: Seq<int> = Seq::new(n as nat, |i: int| 0int);
        let mut head: usize = 0;
        while head < queue.len()
            invariant
                self@.wf(),
                self@ == (GameView { grid: self@.grid, ..old(self)@ }),
                self@.kinds() == k,
                s0 == old(self)@.states(),
                k == old(self)@.kinds(),
                w == self@.width,
                h == self@.height,
                n == self@.grid.len(),
                n <= 127 * 127,
                in_bounds(w, h, sx, sy),
                !(k[idx(w, sx, sy)] is Mine),
                count_unrevealed(s0) <= n,
                head <= queue@.len(),
                queue@.len() >= 1,
                queue@[0] == (x, y),
                qd.len() == queue@.len(),
                wit.len() == n,
                pa.len() == n,
                queue@.len() + 8 * count_unrevealed(self@.states()) <= 1 + 8 * count_unrevealed(s0),
                forall|j: int|
                    0 <= j < queue@.len() && open_at(s0, w, h, (#[trigger] queue@[j]).0 as int, queue@[j].1 as int)
                        ==> reach_within(k, s0, w, h, sx, sy, queue@[j].0 as int, queue@[j].1 as int, qd[j]),
                forall|j: int|
                    0 <= j < head && in_bounds(w, h, (#[trigger] queue@[j]).0 as int, queue@[j].1 as int)
                        ==> self@.states()[idx(w, queue@[j].0 as int, queue@[j].1 as int)] == CellState::Revealed,
                forall|cx: int, cy: int|
                    #![trigger self@.states()[idx(w, cx, cy)]]
                    in_bounds(w, h, cx, cy) && self@.states()[idx(w, cx, cy)] != s0[idx(w, cx, cy)] ==> {
                        &&& self@.states()[idx(w, cx, cy)] == CellState::Revealed
                        &&& reach_within(k, s0, w, h, sx, sy, cx, cy, wit[idx(w, cx, cy)])
                    },
                forall|cx: int, cy: int|
                    #![trigger self@.states()[idx(w, cx, cy)]]
                    in_bounds(w, h, cx, cy) && self@.states()[idx(w, cx, cy)] != s0[idx(w, cx, cy)]
                        && blank_at(k, w, cx, cy) ==> {
                        &&& 0 <= pa[idx(w, cx, cy)]
                        &&& pa[idx(w, cx, cy)] + 8 <= queue@.len()
                        &&& forall|m: int| 0 <= m < 8 ==>
                            (#[trigger] queue@[pa[idx(w, cx, cy)] + m].0 as int, queue@[pa[idx(w, cx, cy)] + m].1 as int)
                                == neighbors_of(cx, cy)[m]
                    },
            decreases 9 * count_unrevealed(self@.states()) + queue@.len() - head,
        {
            let (ax, ay) = queue[head];
            let ghost d = qd[head as int];
            head = head + 1;
            if self.is_oob(ax, ay) {
                continue;
            }
            let i = self.index_of(ax, ay);
            let c = self.grid[i];
            if c.state == CellState::Revealed {
                continue;
            }
            let ghost v0 = self@;
            let ghost q0 = queue@;
            let ghost mut nb: Seq<(i8, i8)> = Seq::empty();
            proof {
                lemma_idx_bounds(w, h, ax as int, ay as int);
                assert(v0.states()[i as int] == c.state);
                assert(s0[i as int] == c.state);
                assert(reach_within(k, s0, w, h, sx, sy, ax as int, ay as int, d));
                lemma_reach_avoids_mines(k, s0, w, h, sx, sy, ax as int, ay as int, d);
                wit = wit.update(i as int, d);
            }
            if c.cell_type == CellType::Count(0) {
                let adj = self.get_adjacents_slice(ax, ay);
                proof {
                    pa = pa.update(i as int, queue@.len() as int);
                    nb = adj@;
                }
                push_neighbors(&mut queue, &adj);
                proof {
                    qd = qd + Seq::new(8, |m: int| (d + 1) as nat);
                    assert forall|j: int|
                        0 <= j < queue@.len() && open_at(s0, w, h, (#[trigger] queue@[j]).0 as int, queue@[j].1 as int)
                            implies reach_within(k, s0, w, h, sx, sy, queue@[j].0 as int, queue@[j].1 as int, qd[j]) by {
                        if j >= q0.len() {
                            let m = j - q0.len();
                            assert(queue@[j] == adj@[m]);
                            assert((adj@[m].0 as int, adj@[m].1 as int) == neighbors_of(ax as int, ay as int)[m]);
                            assert(adjacent(queue@[j].0 as int, queue@[j].1 as int, ax as int, ay as int));
                        } else {
                            assert(queue@[j] == q0[j]);
                        }
                    }
                }
            }
            self.grid.set(i, Cell { state: CellState::Revealed, ..c });
            proof {
                let v1 = self@;
                assert(v1.kinds() =~= k);
                assert(v1.states() =~= v0.states().update(i as int, CellState::Revealed));
                lemma_count_update(v0.states(), is_unrevealed(), i as int, CellState::Revealed);
                lemma_count_update(v0.grid, is_flagged_mine(), i as int, Cell { state: CellState::Revealed, ..c });
                assert(v1.grid =~= v0.grid.update(i as int, Cell { state: CellState::Revealed, ..c }));
                assert forall|cx: int, cy: int|
                    #![trigger v1.states()[idx(w, cx, cy)]]
                    in_bounds(w, h, cx, cy) && v1.states()[idx(w, cx, cy)] != s0[idx(w, cx, cy)] implies {
                        &&& v1.states()[idx(w, cx, cy)] == CellState::Revealed
                        &&& reach_within(k, s0, w, h, sx, sy, cx, cy, wit[idx(w, cx, cy)])
                    } by {
                    lemma_idx_bounds(w, h, cx, cy);
                    if idx(w, cx, cy) == i {
                        lemma_idx_injective(w, h, cx, cy, ax as int, ay as int);
                    } else {
                        assert(v1.states()[idx(w, cx, cy)] == v0.states()[idx(w, cx, cy)]);
                    }
                }
                assert forall|cx: int, cy: int|
                    #![trigger v1.states()[idx(w, cx, cy)]]
                    in_bounds(w, h, cx, cy) && v1.states()[idx(w, cx, cy)] != s0[idx(w, cx, cy)]
                        && blank_at(k, w, cx, cy) implies {
                        &&& 0 <= pa[idx(w, cx, cy)]
                        &&& pa[idx(w, cx, cy)] + 8 <= queue@.len()
                        &&& forall|m: int| 0 <= m < 8 ==>
                            (#[trigger] queue@[pa[idx(w, cx, cy)] + m].0 as int, queue@[pa[idx(w, cx, cy)] + m].1 as int)
                                == neighbors_of(cx, cy)[m]
                    } by {
                    lemma_idx_bounds(w, h, cx, cy);
                    if idx(w, cx, cy) == i {
                        lemma_idx_injective(w, h, cx, cy, ax as int, ay as int);
                        assert forall|m: int| 0 <= m < 8 implies
                            (#[trigger] queue@[pa[idx(w, cx, cy)] + m].0 as int, queue@[pa[idx(w, cx, cy)] + m].1 as int)
                                == neighbors_of(cx, cy)[m] by {
                            assert(queue@[q0.len() + m] == nb[m]);
                            assert((nb[m].0 as int, nb[m].1 as int) == neighbors_of(ax as int, ay as int)[m]);
                        }
                    } else {
                        assert(v1.states()[idx(w, cx, cy)] == v0.states()[idx(w, cx, cy)]);
                        let p = pa[idx(w, cx, cy)];
                        assert forall|m: int| 0 <= m < 8 implies
                            (#[trigger] queue@[p + m].0 as int, queue@[p + m].1 as int) == neighbors_of(cx, cy)[m] by {
                            assert(queue@[p + m] == q0[p + m]);
                        }
                    }
                }
                assert forall|j: int|
                    0 <= j < head && in_bounds(w, h, (#[trigger] queue@[j]).0 as int, queue@[j].1 as int)
                        implies v1.states()[idx(w, queue@[j].0 as int, queue@[j].1 as int)] == CellState::Revealed by {
                    assert(queue@[j] == q0[j]);
                    lemma_idx_bounds(w, h, queue@[j].0 as int, queue@[j].1 as int);
                    if idx(w, queue@[j].0 as int, queue@[j].1 as int) != i {
                        assert(v1.states()[idx(w, queue@[j].0 as int, queue@[j].1 as int)]
                            == v0.states()[idx(w, queue@[j].0 as int, queue@[j].1 as int)]);
                    }
                }
            }
        }
        proof {
            let v = self@;
            let s = v.states();
            assert forall|px: int, py: int, qx: int, qy: int|
                #[trigger] adjacent(px, py, qx, qy) && in_bounds(w, h, qx, qy) && open_at(s0, w, h, px, py)
                    && s[idx(w, px, py)] == CellState::Revealed && blank_at(k, w, px, py)
                    implies s[idx(w, qx, qy)] == CellState::Revealed by {
                let m = lemma_adjacent_is_neighbor(px, py, qx, qy);
                let j = pa[idx(w, px, py)] + m;
                assert(s[idx(w, px, py)] != s0[idx(w, px, py)]);
                assert((queue@[j].0 as int, queue@[j].1 as int) == neighbors_of(px, py)[m]);
            }
            assert(s[idx(w, sx, sy)] == CellState::Revealed) by {
                assert(queue@[0] == (x, y));
            }
            let r = revealed_after(k, s0, w, h, sx, sy);
            assert forall|i: int| 0 <= i < n implies #[trigger] s[i] == r[i] by {
                lemma_index_split(w, h, i);
                let cx = i % w;
                let cy = i / w;
                if reachable(k, s0, w, h, sx, sy, cx, cy) {
                    let dn = choose|dn: nat| #[trigger] reach_within(k, s0, w, h, sx, sy, cx, cy, dn);
                    lemma_reach_revealed(k, s0, s, w, h, sx, sy, cx, cy, dn);
                } else {
                    if s[idx(w, cx, cy)] != s0[idx(w, cx, cy)] {
                        assert(reach_within(k, s0, w, h, sx, sy, cx, cy, wit[idx(w, cx, cy)]));
                    }
                }
            }
            assert(s =~= r);
            assert forall|i: int| 0 <= i < n && (#[trigger] old(self)@.grid[i]).cell_type is Mine
                implies v.grid[i] == old(self)@.grid[i] by {
                lemma_index_split(w, h, i);
                let cx = i % w;
                let cy = i / w;
                if s[idx(w, cx, cy)] != s0[idx(w, cx, cy)] {
                    lemma_reach_avoids_mines(k, s0, w, h, sx, sy, cx, cy, wit[idx(w, cx, cy)]);
                }
                assert(v.grid[i].cell_type == k[i]);
                assert(v.grid[i].state == s[i]);
            }
        }
    }
}

impl Game {
    /// Opens the cell at `(x, y)`. On a mine the game is over and nothing changes;
    /// otherwise the flood fill runs from there and play continues.
    pub fn click(&mut self, x: i8, y: i8) -> (r: VictoryState)
        requires
            old(self)@.wf(),
            in_bounds(old(self)@.width, old(self)@.height, x as int, y as int),
        ensures
            final(self)@.wf(),
            old(self)@.cell(x as int, y as int).cell_type is Mine ==> r == VictoryState::Over && final(self)@
                == old(self)@,
            !(old(self)@.cell(x as int, y as int).cell_type is Mine) ==> {
                &&& r == VictoryState::Continue
                &&& final(self)@ == (GameView { grid: final(self)@.grid, ..old(self)@ })
                &&& final(self)@.kinds() == old(self)@.kinds()
                &&& final(self)@.states() == revealed_after(
                    old(self)@.kinds(),
                    old(self)@.states(),
                    old(self)@.width,
                    old(self)@.height,
                    x as int,
                    y as int,
                )
            },
            click_post(old(self)@, x as int, y as int, final(self)@, r),
    {
        if self.get_cell(x, y).cell_type == CellType::Mine {
            VictoryState::Over
        } else {
            self.reveal_from(x, y);
            VictoryState::Continue
        }
    }

    /// Opens the cell under the cursor (see `click`).
    pub fn click_at_cursor(&mut self) -> (r: VictoryState)
        requires
            old(self)@.wf(),
        ensures
            final(self)@.wf(),
            old(self)@.cell(old(self)@.cursor_x, old(self)@.cursor_y).cell_type is Mine ==> r == VictoryState::Over
                && final(self)@ == old(self)@,
            !(old(self)@.cell(old(self)@.cursor_x, old(self)@.cursor_y).cell_type is Mine) ==> {
                &&& r == VictoryState::Continue
                &&& final(self)@ == (GameView { grid: final(self)@.grid, ..old(self)@ })
                &&& final(self)@.kinds() == old(self)@.kinds()
                &&& final(self)@.states() == revealed_after(
                    old(self)@.kinds(),
                    old(self)@.states(),
                    old(self)@.width,
                    old(self)@.height,
                    old(self)@.cursor_x,
                    old(self)@.cursor_y,
                )
            },
    {
        let x = self.cursor_x;
        let y = self.cursor_y;
        self.click(x, y)
    }
}

/// A flood fill run a second time from the same cell changes nothing: the first run has
/// revealed the start, and a revealed start reaches nothing.
pub proof fn lemma_reveal_idempotent(k: Seq<CellType>, s: Seq<CellState>, w: int, h: int, sx: int, sy: int)
    requires
        0 < w,
        0 < h,
        s.len() == w * h,
        in_bounds(w, h, sx, sy),
    ensures
        revealed_after(k, revealed_after(k, s, w, h, sx, sy), w, h, sx, sy) == revealed_after(k, s, w, h, sx, sy),
{
    let s1 = revealed_after(k, s, w, h, sx, sy);
    let i0 = idx(w, sx, sy);
    lemma_idx_bounds(w, h, sx, sy);
    if open_at(s, w, h, sx, sy) {
        assert(reach_within(k, s, w, h, sx, sy, sx, sy, 0));
    }
    assert(s1[i0] == CellState::Revealed);
    assert(!open_at(s1, w, h, sx, sy));
    let s2 = revealed_after(k, s1, w, h, sx, sy);
    assert forall|i: int| 0 <= i < s1.len() implies #[trigger] s2[i] == s1[i] by {
        if reachable(k, s1, w, h, sx, sy, i % w, i / w) {
            let n = choose|n: nat| #[trigger] reach_within(k, s1, w, h, sx, sy, i % w, i / w, n);
            lemma_reach_needs_open_start(k, s1, w, h, sx, sy, i % w, i / w, n);
        }
    }
    assert(s2 =~= s1);
}

/// Flagging the same cell twice gives back the board it started from, and with it the
/// count of correctly flagged mines.
pub proof fn lemma_flag_twice(g: Seq<Cell>, i: int)
    requires
        0 <= i < g.len(),
    ensures
        toggle_flag_at(toggle_flag_at(g, i), i) == g,
        count_flagged_mines(toggle_flag_at(toggle_flag_at(g, i), i)) == count_flagged_mines(g),
{
    assert(toggle_flag_at(toggle_flag_at(g, i), i) =~= g);
}

/// Never more mines are flagged than there are mines.
pub proof fn lemma_flagged_le_mines(g: Seq<Cell>)
    ensures
        count_flagged_mines(g) <= count_mines(kinds_of(g)),
    decreases g.len(),
{
    if g.len() > 0 {
        lemma_flagged_le_mines(g.drop_last());
        assert(kinds_of(g).drop_last() =~= kinds_of(g.drop_last()));
    }
}

/// On a well-formed board the count of correctly flagged mines lies between zero and the
/// number of mines.
pub proof fn lemma_flag_count_bounded(v: GameView)
    requires
        v.wf(),
    ensures
        0 <= v.correct_flag_count <= v.mine_count,
{
    lemma_flagged_le_mines(v.grid);
}

/// On a board without mines any flag action leaves no flagged mine, so that the count of
/// correct flags equals the (zero) number of mines: the game is won at once.
pub proof fn lemma_mine_free_flag_wins(g: Seq<Cell>, i: int)
    requires
        0 <= i < g.len(),
        count_mines(kinds_of(g)) == 0,
    ensures
        count_flagged_mines(toggle_flag_at(g, i)) == 0,
{
    let g1 = toggle_flag_at(g, i);
    assert(kinds_of(g1) =~= kinds_of(g));
    lemma_flagged_le_mines(g1);
}

pub const FLAG_GLYPH: &'static str = "\u{26F3}";
pub const HIDDEN_GLYPH: &'static str = "\u{1F532}";
pub const MINE_GLYPH: &'static str = "\u{1F4A3}";
pub const TERM_BG_WHITE: &'static str = "\x1b[48;5;240m";
pub const TERM_BG_YELLOW: &'static str = "\x1b[48;5;242m";
pub const TERM_RESET: &'static str = "\x1b[0m";
pub const LINE_END: &'static str = "\r\n";

/// The two-column text of a revealed count: blank for zero, else the digit and a space.
pub open spec fn count_text(n: u8) -> Seq<char> {
    if n == 1 {
        "1 "@
    } else if n == 2 {
        "2 "@
    } else if n == 3 {
        "3 "@
    } else if n == 4 {
        "4 "@
    } else if n == 5 {
        "5 "@
    } else if n == 6 {
        "6 "@
    } else if n == 7 {
        "7 "@
    } else if n == 8 {
        "8 "@
    } else {
        "  "@
    }
}

/// How a cell looks: a flag, a hidden square, or once revealed its count or a bomb.
pub open spec fn glyph(c: Cell) -> Seq<char> {
    match c.state {
        CellState::Flagged => FLAG_GLYPH@,
        CellState::Hidden => HIDDEN_GLYPH@,
        CellState::Revealed => match c.cell_type {
            CellType::Count(n) => count_text(n),
            CellType::Mine => MINE_GLYPH@,
        },
    }
}

/// A cell with its background: the cursor cell and the cursor's row and column are shaded.
pub open spec fn cell_text(v: GameView, col: int, row: int) -> Seq<char> {
    let on_cursor = row == v.cursor_y && col == v.cursor_x;
    let on_cross = row == v.cursor_y || col == v.cursor_x;
    let pre = if on_cursor {
        TERM_BG_YELLOW@
    } else if on_cross {
        TERM_BG_WHITE@
    } else {
        Seq::empty()
    };
    let post = if on_cross {
        TERM_RESET@
    } else {
        Seq::empty()
    };
    pre + glyph(v.cell(col, row)) + post
}

/// The first `n` cells of row `row`.
pub open spec fn row_text(v: GameView, row: int, n: int) -> Seq<char>
    decreases n,
{
    if n <= 0 {
        Seq::empty()
    } else {
        row_text(v, row, n - 1) + cell_text(v, n - 1, row)
    }
}

/// The first `m` rows, each ended by a line break.
pub open spec fn rows_text(v: GameView, m: int) -> Seq<char>
    decreases m,
{
    if m <= 0 {
        Seq::empty()
    } else {
        rows_text(v, m - 1) + row_text(v, m - 1, v.width) + LINE_END@
    }
}

/// The whole picture of the board, followed by two blank lines.
pub open spec fn board_text(v: GameView) -> Seq<char> {
    rows_text(v, v.height) + LINE_END@ + LINE_END@
}

fn count_glyph(n: u8) -> (r: &'static str)
    ensures
        r@ == count_text(n),
{
    match n {
        1 => "1 ",
        2 => "2 ",
        3 => "3 ",
        4 => "4 ",
        5 => "5 ",
        6 => "6 ",
        7 => "7 ",
        8 => "8 ",
        _ => "  ",
    }
}

impl Game {
    /// The text that shows the board, row by row, with the cursor's row and column shaded.
    #[verifier::rlimit(50)]
    pub fn draw(&self) -> (r: String)
        requires
            self@.wf(),
        ensures
            r@ == board_text(self@),
    {
        let mut out = String::new();
        let mut row: i8 = 0;
        while row < self.height
            invariant
                self@.wf(),
                0 <= row <= self@.height,
                out@ == rows_text(self@, row as int),
            decreases self@.height - row,
        {
            let mut col: i8 = 0;
            while col < self.width
                invariant
                    self@.wf(),
                    0 <= row < self@.height,
                    0 <= col <= self@.width,
                    out@ == rows_text(self@, row as int) + row_text(self@, row as int, col as int),
                decreases self@.width - col,
            {
                let ghost before = out@;
                let cell = self.get_cell(col, row);
                let on_cross = row == self.cursor_y || col == self.cursor_x;
                if row == self.cursor_y && col == self.cursor_x {
                    out.append(TERM_BG_YELLOW);
                } else if on_cross {
                    out.append(TERM_BG_WHITE);
                }
                match cell.state {
                    CellState::Flagged => out.append(FLAG_GLYPH),
                    CellState::Hidden => out.append(HIDDEN_GLYPH),
                    CellState::Revealed => match cell.cell_type {
                        CellType::Count(c) => out.append(count_glyph(c)),
                        CellType::Mine => out.append(MINE_GLYPH),
                    },
                }
                if on_cross {
                    out.append(TERM_RESET);
                }
                proof {
                    assert(out@ =~= before + cell_text(self@, col as int, row as int));
                }
                col = col + 1;
            }
            out.append(LINE_END);
            row = row + 1;
        }
        out.append(LINE_END);
        out.append(LINE_END);
        out
    }
}

impl Game {
    pub fn width(&self) -> (r: i8)
        ensures
            r == self@.width,
    {
        self.width
    }

    pub fn height(&self) -> (r: i8)
        ensures
            r == self@.height,
    {
        self.height
    }

    pub fn mine_percent(&self) -> (r: i8)
        ensures
            r == self@.mine_percent,
    {
        self.mine_percent
    }

    pub fn cursor(&self) -> (r: (i8, i8))
        ensures
            r.0 == self@.cursor_x,
            r.1 == self@.cursor_y,
    {
        (self.cursor_x, self.cursor_y)
    }

    /// The number of cells that hold a mine.
    pub fn mine_count(&self) -> (r: usize)
        ensures
            r == self@.mine_count,
    {
        self.mine_count
    }

    /// The number of flagged cells that hold a mine.
    pub fn correct_flag_count(&self) -> (r: usize)
        ensures
            r == self@.correct_flag_count,
    {
        self.correct_flag_count
    }
}

} // verus!
