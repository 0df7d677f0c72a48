use vstd::prelude::*;
use crate::cell::{Cell, CellValue};

verus! {

/// A position on the board: row, then column.
pub type Pos = (u8, u8);

/// The outcome of the game so far, as seen after each move.
#[derive(PartialEq, Eq, Structural, Copy, Clone, Debug, Hash)]
pub enum Status {
    InProgress(i32),
    Lost,
    Won,
}

/// A position outside the board was addressed.
#[derive(PartialEq, Eq, Structural, Copy, Clone, Debug)]
pub struct OutOfBounds;

/// One game session: a `rows` by `cols` grid of cells, row by row.
pub struct Game {
    rows: u8,
    cols: u8,
    bombs: u8,
    cells: Vec<Vec<Cell>>,
    /// Set when a mine is opened, and never cleared after.
    has_lost: bool,
}

/// Whether `q` lies in the 8-neighbourhood of `p` (not `p` itself).
pub open spec fn is_neighbor(p: Pos, q: Pos) -> bool {
    p != q && -1 <= p.0 - q.0 <= 1 && -1 <= p.1 - q.1 <= 1
}

pub open spec fn shown_pred() -> spec_fn(Cell) -> bool {
    |c: Cell| c.shown
}

pub open spec fn hidden_pred() -> spec_fn(Cell) -> bool {
    |c: Cell| !c.shown
}

pub open spec fn flagged_pred() -> spec_fn(Cell) -> bool {
    |c: Cell| c.flagged
}

/// How many cells of a row satisfy `p`.
pub open spec fn count_in_row(s: Seq<Cell>, p: spec_fn(Cell) -> bool) -> nat
    decreases s.len(),
{
    if s.len() == 0 {
        0
    } else {
        count_in_row(s.drop_last(), p) + if p(s.last()) { 1nat } else { 0nat }
    }
}

/// How many cells of a grid satisfy `p`.
pub open spec fn count_in_grid(g: Seq<Vec<Cell>>, p: spec_fn(Cell) -> bool) -> nat
    decreases g.len(),
{
    if g.len() == 0 {
        0
    } else {
        count_in_grid(g.drop_last(), p) + count_in_row(g.last()@, p)
    }
}

proof fn lemma_count_row_bound(s: Seq<Cell>, p: spec_fn(Cell) -> bool)
    ensures
        count_in_row(s, p) <= s.len(),
    decreases s.len(),
{
    if s.len() > 0 {
        lemma_count_row_bound(s.drop_last(), p);
    }
}

proof fn lemma_count_grid_bound(g: Seq<Vec<Cell>>, p: spec_fn(Cell) -> bool)
    requires
        forall|i: int| 0 <= i < g.len() ==> #[trigger] g[i]@.len() <= 255,
    ensures
        count_in_grid(g, p) <= g.len() * 255,
    decreases g.len(),
{
    if g.len() > 0 {
        lemma_count_grid_bound(g.drop_last(), p);
        lemma_count_row_bound(g.last()@, p);
    }
}

proof fn lemma_count_row_update(s: Seq<Cell>, c: int, x: Cell, p: spec_fn(Cell) -> bool)
    requires
        0 <= c < s.len(),
    ensures
        count_in_row(s.update(c, x), p) + (if p(s[c]) { 1int } else { 0int })
            == count_in_row(s, p) + (if p(x) { 1int } else { 0int }),
    decreases s.len(),
{
    let t = s.update(c, x);
    if c < s.len() - 1 {
        assert(t.drop_last() =~= s.drop_last().update(c, x));
        lemma_count_row_update(s.drop_last(), c, x, p);
    } else {
        assert(t.drop_last() =~= s.drop_last());
    }
}

proof fn lemma_count_grid_ext(g: Seq<Vec<Cell>>, h: Seq<Vec<Cell>>, p: spec_fn(Cell) -> bool)
    requires
        h.len() == g.len(),
        forall|i: int| 0 <= i < g.len() ==> #[trigger] h[i]@ == g[i]@,
    ensures
        count_in_grid(h, p) == count_in_grid(g, p),
    decreases g.len(),
{
    if g.len() > 0 {
        lemma_count_grid_ext(g.drop_last(), h.drop_last(), p);
        assert(h.last()@ == g.last()@);
    }
}

proof fn lemma_count_grid_update(
    g: Seq<Vec<Cell>>,
    h: Seq<Vec<Cell>>,
    r: int,
    c: int,
    x: Cell,
    p: spec_fn(Cell) -> bool,
)
    requires
        0 <= r < g.len(),
        h.len() == g.len(),
        0 <= c < g[r]@.len(),
        h[r]@ == g[r]@.update(c, x),
        forall|i: int| 0 <= i < g.len() && i != r ==> #[trigger] h[i]@ == g[i]@,
    ensures
        count_in_grid(h, p) + (if p(g[r]@[c]) { 1int } else { 0int })
            == count_in_grid(g, p) + (if p(x) { 1int } else { 0int }),
    decreases g.len(),
{
    if r < g.len() - 1 {
        lemma_count_grid_update(g.drop_last(), h.drop_last(), r, c, x, p);
    } else {
        lemma_count_grid_ext(g.drop_last(), h.drop_last(), p);
        lemma_count_row_update(g[r]@, c, x, p);
    }
}

/// `h` keeps the invariant of `g` when it explodes the same cells, each still a shown,
/// unflagged mine, and is lost as `g` is.
proof fn lemma_wf_kept(g: Game, h: Game)
    requires
        g.wf(),
        h.shaped(),
        h.spec_rows() == g.spec_rows(),
        h.spec_cols() == g.spec_cols(),
        h.spec_lost() == g.spec_lost(),
        forall|q: Pos| #![trigger h.at(q)] g.in_bounds(q) ==> h.at(q).exploded == g.at(q).exploded,
        forall|q: Pos| #![trigger h.at(q)] g.in_bounds(q) && h.at(q).exploded
            ==> h.at(q).mined() && h.at(q).shown && !h.at(q).flagged,
        h.counts_ok(),
    ensures
        h.wf(),
{
    if g.spec_lost() {
        let q = choose|q: Pos| g.in_bounds(q) && (#[trigger] g.at(q)).exploded;
        assert(h.at(q).exploded);
    }
    if exists|q: Pos| h.in_bounds(q) && (#[trigger] h.at(q)).exploded {
        let q = choose|q: Pos| h.in_bounds(q) && (#[trigger] h.at(q)).exploded;
        assert(g.at(q).exploded);
    }
}

/// At most eight neighbours of `q` can be mined.
proof fn lemma_mined_around_small(g: Game, q: Pos)
    ensures
        g.mined_around(q).finite(),
        g.mined_around(q).len() <= 8,
{
    let (a, b) = q;
    let e = set![((a - 1) as u8, (b - 1) as u8), ((a - 1) as u8, b), ((a - 1) as u8, (b + 1) as u8),
        (a, (b - 1) as u8), (a, (b + 1) as u8),
        ((a + 1) as u8, (b - 1) as u8), ((a + 1) as u8, b), ((a + 1) as u8, (b + 1) as u8)];
    assert(g.mined_around(q).subset_of(e));
    vstd::set_lib::lemma_len_subset(g.mined_around(q), e);
}

/// Counts stay right when no cell changes what it holds.
proof fn lemma_counts_kept(g: Game, h: Game)
    requires
        g.counts_ok(),
        h.spec_rows() == g.spec_rows(),
        h.spec_cols() == g.spec_cols(),
        forall|q: Pos| #![trigger h.at(q)] g.in_bounds(q) ==> h.at(q).value == g.at(q).value,
    ensures
        h.counts_ok(),
{
    assert forall|q: Pos| h.in_bounds(q) && !(#[trigger] h.at(q)).mined()
        implies h.at(q).count() == h.mined_around(q).len() by {
        assert(h.mined_around(q) =~= g.mined_around(q));
    }
}

/// Counts stay right when a mine is planted on a cell that held none.
proof fn lemma_counts_planted(g: Game, h: Game, p: Pos)
    requires
        g.wf(),
        g.in_bounds(p),
        !g.at(p).mined(),
        g.planted(h, p),
    ensures
        h.counts_ok(),
{
    assert forall|q: Pos| h.in_bounds(q) && !(#[trigger] h.at(q)).mined()
        implies h.at(q).count() == h.mined_around(q).len() by {
        assert(q != p);
        assert(!g.at(q).mined());
        lemma_mined_around_small(g, q);
        if is_neighbor(p, q) {
            assert(h.mined_around(q) =~= g.mined_around(q).insert(p));
        } else {
            assert(h.mined_around(q) =~= g.mined_around(q));
        }
    }
}

proof fn lemma_with_cell_counts(g: Game, h: Game, p: Pos, x: Cell, pred: spec_fn(Cell) -> bool)
    requires
        g.shaped(),
        g.in_bounds(p),
        g.with_cell(h, p, x),
    ensures
        count_in_grid(h.grid(), pred) + (if pred(g.at(p)) { 1int } else { 0int })
            == count_in_grid(g.grid(), pred) + (if pred(x) { 1int } else { 0int }),
{
    let r = p.0 as int;
    assert forall|i: int| 0 <= i < g.grid().len() && i != r implies #[trigger] h.grid()[i]@ == g.grid()[i]@ by {
        assert forall|j: int| 0 <= j < g.grid()[i]@.len() implies h.grid()[i]@[j] == g.grid()[i]@[j] by {
            let q: Pos = (i as u8, j as u8);
            assert(h.at(q) == g.at(q));
        }
        assert(h.grid()[i]@ =~= g.grid()[i]@);
    }
    assert forall|j: int| 0 <= j < g.grid()[r]@.len() implies h.grid()[r]@[j] == g.grid()[r]@.update(p.1 as int, x)[j] by {
        let q: Pos = (p.0, j as u8);
        if j != p.1 as int {
            assert(h.at(q) == g.at(q));
        }
    }
    assert(h.grid()[r]@ =~= g.grid()[r]@.update(p.1 as int, x));
    lemma_count_grid_update(g.grid(), h.grid(), r, p.1 as int, x, pred);
}

/// Flagging a hidden cell and flagging it again gives back the same number of flags.
pub proof fn lemma_flag_twice_restores_count(g0: Game, g1: Game, g2: Game, pos: Pos)
    requires
        g0.wf(),
        g0.in_bounds(pos),
        !g0.at(pos).shown,
        g0.flag_flipped(g1, pos),
        g1.flag_flipped(g2, pos),
    ensures
        g2.flagged_count() == g0.flagged_count(),
        forall|q: Pos| g0.in_bounds(q) ==> #[trigger] g2.at(q) == g0.at(q),
{
    lemma_with_cell_counts(g0, g1, pos, g1.at(pos), flagged_pred());
    lemma_with_cell_counts(g1, g2, pos, g2.at(pos), flagged_pred());
}

/// Whether the game is won does not depend on flags: flagging any hidden cell keeps it.
pub proof fn lemma_flags_do_not_decide_won(g: Game, h: Game, pos: Pos)
    requires
        g.wf(),
        g.in_bounds(pos),
        g.flag_flipped(h, pos),
    ensures
        h.won() == g.won(),
        h.shown_count() == g.shown_count(),
        !g.spec_lost() ==> (h.status_of() == Status::Won <==> h.shown_count() == g.spec_rows() * g.spec_cols() - g.spec_bombs()),
{
    lemma_with_cell_counts(g, h, pos, h.at(pos), shown_pred());
}

/// The game is lost exactly when some mine was opened: that mine is shown, unflagged and
/// exploded.
pub proof fn lemma_lost_iff_mine_opened(g: Game)
    requires
        g.wf(),
    ensures
        (g.status_of() == Status::Lost) <==> exists|q: Pos| #![trigger g.at(q)]
            g.in_bounds(q) && g.at(q).mined() && g.at(q).shown && !g.at(q).flagged && g.at(q).exploded,
{
    if g.spec_lost() {
        let q = choose|q: Pos| g.in_bounds(q) && (#[trigger] g.at(q)).exploded;
        assert(g.at(q).mined() && g.at(q).shown && !g.at(q).flagged);
    }
}

/// Once lost, a game stays lost whatever is opened, flagged or planted next.
pub proof fn lemma_lost_is_kept(g: Game, h: Game, p: Pos)
    requires
        g.wf(),
        g.in_bounds(p),
        g.status_of() == Status::Lost,
        g.opened(h, p) || g.flag_flipped(h, p) || g.planted(h, p),
    ensures
        h.status_of() == Status::Lost,
{
}

/// Opening a hidden, unflagged cell shows it, shows no other mine or flagged cell, and
/// leaves every cell that was already shown as it was; opening it again then changes nothing.
pub proof fn lemma_open_reveals_safely(g: Game, h: Game, p: Pos)
    requires
        g.wf(),
        g.in_bounds(p),
        !g.at(p).shown,
        !g.at(p).flagged,
        g.opened(h, p),
    ensures
        h.at(p).shown,
        forall|q: Pos| #![trigger h.at(q)] g.in_bounds(q) && q != p && h.at(q).shown && !g.at(q).shown
            ==> !g.at(q).mined() && !g.at(q).flagged,
        forall|q: Pos| #![trigger h.at(q)] g.in_bounds(q) && g.at(q).shown ==> h.at(q) == g.at(q),
        forall|q: Pos| #![trigger h.at(q)] g.in_bounds(q) && q != p ==> h.at(q).exploded == g.at(q).exploded,
{
    assert forall|q: Pos| #![trigger h.at(q)] g.in_bounds(q) && g.at(q).shown implies h.at(q) == g.at(q) by {
        assert(!g.at(q).exploded || g.at(q).mined());
        if q == p {
            assert(false);
        }
    }
}

/// The in-bounds neighbours of `p` on `g`.
pub open spec fn neighbourhood(g: Game, p: Pos) -> Set<Pos> {
    Set::new(|q: Pos| g.in_bounds(q) && is_neighbor(p, q))
}

/// Corner cells have three neighbours, other border cells five, inner cells eight.
pub proof fn lemma_neighbourhood_size(g: Game, p: Pos)
    requires
        g.in_bounds(p),
        g.spec_rows() >= 2,
        g.spec_cols() >= 2,
    ensures
        ({
            let rim_row = p.0 == 0 || p.0 + 1 == g.spec_rows();
            let rim_col = p.1 == 0 || p.1 + 1 == g.spec_cols();
            &&& rim_row && rim_col ==> neighbourhood(g, p).len() == 3
            &&& rim_row != rim_col ==> neighbourhood(g, p).len() == 5
            &&& !rim_row && !rim_col ==> neighbourhood(g, p).len() == 8
        }),
{
    let (a, b) = p;
    let up = a > 0;
    let down = a + 1 < g.spec_rows();
    let left = b > 0;
    let right = b + 1 < g.spec_cols();
    if up && down && left && right {
        assert(neighbourhood(g, p) =~= set![((a - 1) as u8, (b - 1) as u8), ((a - 1) as u8, b), ((a - 1) as u8, (b + 1) as u8), (a, (b - 1) as u8), (a, (b + 1) as u8), ((a + 1) as u8, (b - 1) as u8), ((a + 1) as u8, b), ((a + 1) as u8, (b + 1) as u8)]);
    } else if up && down && left && !right {
        assert(neighbourhood(g, p) =~= set![((a - 1) as u8, (b - 1) as u8), ((a - 1) as u8, b), (a, (b - 1) as u8), ((a + 1) as u8, (b - 1) as u8), ((a + 1) as u8, b)]);
    } else if up && down && !left && right {
        assert(neighbourhood(g, p) =~= set![((a - 1) as u8, b), ((a - 1) as u8, (b + 1) as u8), (a, (b + 1) as u8), ((a + 1) as u8, b), ((a + 1) as u8, (b + 1) as u8)]);
    } else if up && !down && left && right {
        assert(neighbourhood(g, p) =~= set![((a - 1) as u8, (b - 1) as u8), ((a - 1) as u8, b), ((a - 1) as u8, (b + 1) as u8), (a, (b - 1) as u8), (a, (b + 1) as u8)]);
    } else if up && !down && left && !right {
        assert(neighbourhood(g, p) =~= set![((a - 1) as u8, (b - 1) as u8), ((a - 1) as u8, b), (a, (b - 1) as u8)]);
    } else if up && !down && !left && right {
        assert(neighbourhood(g, p) =~= set![((a - 1) as u8, b), ((a - 1) as u8, (b + 1) as u8), (a, (b + 1) as u8)]);
    } else if !up && down && left && right {
        assert(neighbourhood(g, p) =~= set![(a, (b - 1) as u8), (a, (b + 1) as u8), ((a + 1) as u8, (b - 1) as u8), ((a + 1) as u8, b), ((a + 1) as u8, (b + 1) as u8)]);
    } else if !up && down && left && !right {
        assert(neighbourhood(g, p) =~= set![(a, (b - 1) as u8), ((a + 1) as u8, (b - 1) as u8), ((a + 1) as u8, b)]);
    } else if !up && down && !left && right {
        assert(neighbourhood(g, p) =~= set![(a, (b + 1) as u8), ((a + 1) as u8, b), ((a + 1) as u8, (b + 1) as u8)]);
    }
}

/// A single mine planted on a fresh board counts once in exactly its in-bounds neighbours,
/// whose number `lemma_neighbourhood_size` gives.
pub proof fn lemma_single_mine_counts(g: Game, h: Game, p: Pos)
    requires
        g.wf(),
        g.in_bounds(p),
        forall|q: Pos| g.in_bounds(q) ==> #[trigger] g.at(q) == Cell::fresh(),
        g.planted(h, p),
    ensures
        h.at(p).mined(),
        forall|q: Pos| #![trigger h.at(q)] g.in_bounds(q) && q != p
            ==> h.at(q).count() == if neighbourhood(g, p).contains(q) { 1nat } else { 0nat },
        Set::new(|q: Pos| g.in_bounds(q) && h.at(q).count() == 1) == neighbourhood(g, p),
{
    assert(Set::new(|q: Pos| g.in_bounds(q) && h.at(q).count() == 1) =~= neighbourhood(g, p)) by {
        assert forall|q: Pos| g.in_bounds(q) && q != p implies h.at(q).count() == if neighbourhood(g, p).contains(q) { 1nat } else { 0nat } by {
            assert(g.at(q) == Cell::fresh());
        }
    }
}

/// On a well-formed board every cell without a mine shows the number of its mined
/// neighbours, which is at most eight.
pub proof fn lemma_counts_exact(g: Game, q: Pos)
    requires
        g.wf(),
        g.in_bounds(q),
        !g.at(q).mined(),
    ensures
        g.at(q).count() == g.mined_around(q).len(),
        g.at(q).count() <= 8,
{
    lemma_mined_around_small(g, q);
}

impl Game {
    pub closed spec fn spec_rows(self) -> nat {
        self.rows as nat
    }

    pub closed spec fn spec_cols(self) -> nat {
        self.cols as nat
    }

    pub closed spec fn spec_bombs(self) -> nat {
        self.bombs as nat
    }

    pub closed spec fn spec_lost(self) -> bool {
        self.has_lost
    }

    pub closed spec fn grid(self) -> Seq<Vec<Cell>> {
        self.cells@
    }

    pub open spec fn in_bounds(self, p: Pos) -> bool {
        (p.0 as nat) < self.spec_rows() && (p.1 as nat) < self.spec_cols()
    }

    /// The cell at `p`.
    pub open spec fn at(self, p: Pos) -> Cell {
        self.grid()[p.0 as int]@[p.1 as int]
    }

    /// Every exploded cell is a shown, unflagged mine, and the game is lost exactly when
    /// some cell has exploded.
    pub open spec fn wf(self) -> bool {
        &&& self.shaped()
        &&& forall|q: Pos| self.in_bounds(q) && (#[trigger] self.at(q)).exploded
            ==> self.at(q).mined() && self.at(q).shown && !self.at(q).flagged
        &&& self.spec_lost() <==> exists|q: Pos| self.in_bounds(q) && (#[trigger] self.at(q)).exploded
        &&& self.counts_ok()
    }

    /// The mined cells among the in-bounds neighbours of `q`.
    pub open spec fn mined_around(self, q: Pos) -> Set<Pos> {
        Set::new(|n: Pos| self.in_bounds(n) && is_neighbor(q, n) && self.at(n).mined())
    }

    /// Every cell that is not mined counts exactly its mined neighbours.
    pub open spec fn counts_ok(self) -> bool {
        forall|q: Pos| self.in_bounds(q) && !(#[trigger] self.at(q)).mined()
            ==> self.at(q).count() == self.mined_around(q).len()
    }

    /// Every row exists and has `cols` cells.
    pub open spec fn shaped(self) -> bool {
        &&& self.grid().len() == self.spec_rows()
        &&& forall|i: int| 0 <= i < self.grid().len() ==> #[trigger] self.grid()[i]@.len() == self.spec_cols()
    }

    pub open spec fn shown_count(self) -> nat {
        count_in_grid(self.grid(), shown_pred())
    }

    pub open spec fn flagged_count(self) -> nat {
        count_in_grid(self.grid(), flagged_pred())
    }

    pub open spec fn hidden_count(self) -> nat {
        count_in_grid(self.grid(), hidden_pred())
    }

    /// All cells not shown are exactly as many as the bombs.
    pub open spec fn won(self) -> bool {
        self.spec_rows() * self.spec_cols() - self.shown_count() == self.spec_bombs() as int
    }

    /// The status that the board is in: a loss outranks a win, and flags left may be negative.
    pub open spec fn status_of(self) -> Status {
        if self.spec_lost() {
            Status::Lost
        } else if self.won() {
            Status::Won
        } else {
            Status::InProgress((self.spec_bombs() - self.flagged_count()) as i32)
        }
    }

    /// Same dimensions, bombs and loss, every cell as in `self` but `p`, which holds `x`.
    pub open spec fn with_cell(self, other: Game, p: Pos, x: Cell) -> bool {
        &&& other.shaped()
        &&& other.spec_rows() == self.spec_rows()
        &&& other.spec_cols() == self.spec_cols()
        &&& other.spec_bombs() == self.spec_bombs()
        &&& other.spec_lost() == self.spec_lost()
        &&& other.at(p) == x
        &&& forall|q: Pos| self.in_bounds(q) && q != p ==> #[trigger] other.at(q) == self.at(q)
    }

    pub fn new(rows: u8, cols: u8, bombs: u8) -> (r: Self)
        ensures
            r.wf(),
            r.spec_rows() == rows,
            r.spec_cols() == cols,
            r.spec_bombs() == bombs,
            !r.spec_lost(),
            forall|q: Pos| r.in_bounds(q) ==> #[trigger] r.at(q) == Cell::fresh(),
    {
        let mut cells: Vec<Vec<Cell>> = Vec::new();
        let mut x: u8 = 0;
        while x < rows
            invariant
                x <= rows,
                cells@.len() == x,
                forall|i: int| 0 <= i < x ==> #[trigger] cells@[i]@.len() == cols,
                forall|i: int, j: int| 0 <= i < x && 0 <= j < cols ==> #[trigger] cells@[i]@[j] == Cell::fresh(),
            decreases rows - x,
        {
            let mut row: Vec<Cell> = Vec::new();
            let mut y: u8 = 0;
            while y < cols
                invariant
                    y <= cols,
                    row@.len() == y,
                    forall|j: int| 0 <= j < y ==> #[trigger] row@[j] == Cell::fresh(),
                decreases cols - y,
            {
                row.push(Cell::new());
                y = y + 1;
            }
            cells.push(row);
            x = x + 1;
        }
        let game = Game { rows, cols, bombs, cells, has_lost: false };
        proof {
            assert forall|q: Pos| game.in_bounds(q) && !(#[trigger] game.at(q)).mined()
                implies game.at(q).count() == game.mined_around(q).len() by {
                assert(game.mined_around(q) =~= Set::empty());
            }
        }
        game
    }

    pub fn rows(&self) -> (r: u8)
        ensures
            r == self.spec_rows(),
    {
        self.rows
    }

    pub fn cols(&self) -> (r: u8)
        ensures
            r == self.spec_cols(),
    {
        self.cols
    }

    pub fn bombs(&self) -> (r: u8)
        ensures
            r == self.spec_bombs(),
    {
        self.bombs
    }

    /// A copy of every cell, row by row.
    pub fn cells(&self) -> (r: Vec<Vec<Cell>>)
        requires
            self.shaped(),
        ensures
            r@.len() == self.spec_rows(),
            forall|i: int| 0 <= i < r@.len() ==> #[trigger] r@[i]@ == self.grid()[i]@,
    {
        let mut out: Vec<Vec<Cell>> = Vec::new();
        let mut x: usize = 0;
        while x < self.cells.len()
            invariant
                self.shaped(),
                x <= self.grid().len(),
                out@.len() == x,
                forall|i: int| 0 <= i < x ==> #[trigger] out@[i]@ == self.grid()[i]@,
            decreases self.grid().len() - x,
        {
            let mut row: Vec<Cell> = Vec::new();
            let mut y: usize = 0;
            while y < self.cells[x].len()
                invariant
                    self.shaped(),
                    x < self.grid().len(),
                    y <= self.grid()[x as int]@.len(),
                    row@ == self.grid()[x as int]@.subrange(0, y as int),
                decreases self.grid()[x as int]@.len() - y,
            {
                row.push(self.cells[x][y]);
                y = y + 1;
            }
            proof {
                assert(row@ =~= self.grid()[x as int]@);
            }
            out.push(row);
            x = x + 1;
        }
        out
    }

    /// The cell at `pos`.
    pub fn cell(&self, pos: Pos) -> (r: Result<Cell, OutOfBounds>)
        requires
            self.shaped(),
        ensures
            self.in_bounds(pos) ==> r == Ok::<Cell, OutOfBounds>(self.at(pos)),
            !self.in_bounds(pos) ==> r == Err::<Cell, OutOfBounds>(OutOfBounds),
    {
        if pos.0 < self.rows && pos.1 < self.cols {
            Ok(self.cells[pos.0 as usize][pos.1 as usize])
        } else {
            Err(OutOfBounds)
        }
    }

    fn set_cell(&mut self, p: Pos, x: Cell)
        requires
            old(self).shaped(),
            old(self).in_bounds(p),
        ensures
            old(self).with_cell(*final(self), p, x),
            count_in_grid(final(self).grid(), hidden_pred()) + (if !old(self).at(p).shown { 1int } else { 0int })
                == count_in_grid(old(self).grid(), hidden_pred()) + (if !x.shown { 1int } else { 0int }),
            count_in_grid(final(self).grid(), shown_pred()) + (if old(self).at(p).shown { 1int } else { 0int })
                == count_in_grid(old(self).grid(), shown_pred()) + (if x.shown { 1int } else { 0int }),
            count_in_grid(final(self).grid(), flagged_pred()) + (if old(self).at(p).flagged { 1int } else { 0int })
                == count_in_grid(old(self).grid(), flagged_pred()) + (if x.flagged { 1int } else { 0int }),
    {
        let ghost g = self.cells@;
        let r = p.0 as usize;
        self.cells[r].set(p.1 as usize, x);
        proof {
            lemma_count_grid_update(g, self.cells@, r as int, p.1 as int, x, hidden_pred());
            lemma_count_grid_update(g, self.cells@, r as int, p.1 as int, x, shown_pred());
            lemma_count_grid_update(g, self.cells@, r as int, p.1 as int, x, flagged_pred());
        }
    }

    /// The in-bounds neighbours of `pos`, each once.
    fn iter_neighbors(&self, pos: Pos) -> (r: Vec<Pos>)
        requires
            self.shaped(),
        ensures
            r@.no_duplicates(),
            forall|q: Pos| #[trigger] r@.contains(q) <==> self.in_bounds(q) && is_neighbor(pos, q),
    {
        let mut out: Vec<Pos> = Vec::new();
        let mut dx: u8 = 0;
        while dx < 3
            invariant
                dx <= 3,
                out@.no_duplicates(),
                forall|q: Pos| #[trigger] out@.contains(q) <==> self.in_bounds(q) && is_neighbor(pos, q)
                    && (q.0 as int) < pos.0 as int - 1 + dx,
            decreases 3 - dx,
        {
            let mut dy: u8 = 0;
            while dy < 3
                invariant
                    dx < 3,
                    dy <= 3,
                    out@.no_duplicates(),
                    forall|q: Pos| #[trigger] out@.contains(q) <==> self.in_bounds(q) && is_neighbor(pos, q)
                        && ((q.0 as int) < pos.0 as int - 1 + dx
                            || (q.0 as int == pos.0 as int - 1 + dx && (q.1 as int) < pos.1 as int - 1 + dy)),
                decreases 3 - dy,
            {
                let ghost prev = out@;
                if (pos.0 as u16) + (dx as u16) >= 1 && (pos.1 as u16) + (dy as u16) >= 1
                    && (pos.0 as u16) + (dx as u16) - 1 < self.rows as u16
                    && (pos.1 as u16) + (dy as u16) - 1 < self.cols as u16
                    && !(dx == 1 && dy == 1) {
                    let q: Pos = (((pos.0 as u16) + (dx as u16) - 1) as u8, ((pos.1 as u16) + (dy as u16) - 1) as u8);
                    proof {
                        assert(!out@.contains(q));
                    }
                    out.push(q);
                }
                proof {
                    let cr = pos.0 as int - 1 + dx;
                    let cc = pos.1 as int - 1 + dy;
                    assert forall|q: Pos| #[trigger] out@.contains(q) <==> self.in_bounds(q) && is_neighbor(pos, q)
                        && ((q.0 as int) < cr || (q.0 as int == cr && (q.1 as int) < cc + 1)) by {
                        if out@.len() > prev.len() {
                            assert(out@ == prev.push(out@.last()));
                            if prev.contains(q) {
                                let i = choose|i: int| 0 <= i < prev.len() && prev[i] == q;
                                assert(out@[i] == q);
                            }
                            if out@.contains(q) && q != out@.last() {
                                let i = choose|i: int| 0 <= i < out@.len() && out@[i] == q;
                                assert(prev[i] == q);
                            }
                        }
                        if q.0 as int == cr && q.1 as int == cc {
                            if self.in_bounds(q) && is_neighbor(pos, q) {
                                assert(out@.last() == q);
                            }
                        }
                    }
                }
                dy = dy + 1;
            }
            dx = dx + 1;
        }
        out
    }

    /// Counts the shown cells, or the flagged ones when `shown` is false.
    fn count_where(&self, shown: bool) -> (r: u32)
        requires
            self.shaped(),
        ensures
            shown ==> r == self.shown_count(),
            !shown ==> r == self.flagged_count(),
    {
        let ghost p = if shown { shown_pred() } else { flagged_pred() };
        let mut total: u32 = 0;
        let mut x: usize = 0;
        while x < self.cells.len()
            invariant
                self.shaped(),
                p == if shown { shown_pred() } else { flagged_pred() },
                x <= self.grid().len(),
                total == count_in_grid(self.grid().subrange(0, x as int), p),
            decreases self.grid().len() - x,
        {
            let mut in_row: u32 = 0;
            let mut y: usize = 0;
            while y < self.cells[x].len()
                invariant
                    self.shaped(),
                    p == if shown { shown_pred() } else { flagged_pred() },
                    x < self.grid().len(),
                    y <= self.grid()[x as int]@.len(),
                    in_row == count_in_row(self.grid()[x as int]@.subrange(0, y as int), p),
                decreases self.grid()[x as int]@.len() - y,
            {
                let c = self.cells[x][y];
                proof {
                    let s = self.grid()[x as int]@;
                    assert(s.subrange(0, y + 1).drop_last() =~= s.subrange(0, y as int));
                    lemma_count_row_bound(s.subrange(0, y as int), p);
                }
                if (shown && c.shown) || (!shown && c.flagged) {
                    in_row = in_row + 1;
                }
                y = y + 1;
            }
            proof {
                let g = self.grid();
                assert(self.grid()[x as int]@.subrange(0, self.grid()[x as int]@.len() as int) =~= self.grid()[x as int]@);
                assert(g.subrange(0, x + 1).drop_last() =~= g.subrange(0, x as int));
                lemma_count_grid_bound(g.subrange(0, x as int), p);
                lemma_count_row_bound(g[x as int]@, p);
            }
            total = total + in_row;
            x = x + 1;
        }
        proof {
            assert(self.grid().subrange(0, self.grid().len() as int) =~= self.grid());
        }
        total
    }

    fn flags_left(&self) -> (r: i32)
        requires
            self.shaped(),
        ensures
            r == self.spec_bombs() - self.flagged_count(),
    {
        let flagged = self.count_where(false);
        proof {
            lemma_count_grid_bound(self.grid(), flagged_pred());
        }
        self.bombs as i32 - flagged as i32
    }

    fn is_won(&self) -> (r: bool)
        requires
            self.shaped(),
        ensures
            r == self.won(),
    {
        let cleared = self.count_where(true);
        proof {
            lemma_count_grid_bound(self.grid(), shown_pred());
        }
        let rows = self.rows as i64;
        let cols = self.cols as i64;
        proof {
            assert(0 <= rows * cols <= 65025) by (nonlinear_arith)
                requires
                    0 <= rows <= 255,
                    0 <= cols <= 255,
            ;
        }
        rows * cols - cleared as i64 == self.bombs as i64
    }

    fn status(&self) -> (r: Status)
        requires
            self.shaped(),
        ensures
            r == self.status_of(),
    {
        if self.has_lost {
            return Status::Lost;
        }
        if self.is_won() {
            return Status::Won;
        }
        Status::InProgress(self.flags_left())
    }

    /// Same dimensions, bombs and loss; only the flag of `p` flipped.
    pub open spec fn flag_flipped(self, other: Game, p: Pos) -> bool {
        self.with_cell(other, p, Cell { flagged: !self.at(p).flagged, ..self.at(p) })
    }

    /// Flips the flag of a hidden cell; a shown cell is left as it is.
    pub fn toggle_flag(&mut self, pos: Pos) -> (r: Result<Status, OutOfBounds>)
        requires
            old(self).wf(),
        ensures
            final(self).wf(),
            !old(self).in_bounds(pos) ==> r == Err::<Status, OutOfBounds>(OutOfBounds) && *final(self) == *old(self),
            old(self).in_bounds(pos) && old(self).at(pos).shown ==> *final(self) == *old(self)
                && r == Ok::<Status, OutOfBounds>(old(self).status_of()),
            old(self).in_bounds(pos) && !old(self).at(pos).shown ==> old(self).flag_flipped(*final(self), pos)
                && final(self).flagged_count() + (if old(self).at(pos).flagged { 1int } else { 0int })
                    == old(self).flagged_count() + (if old(self).at(pos).flagged { 0int } else { 1int })
                && final(self).shown_count() == old(self).shown_count()
                && r == Ok::<Status, OutOfBounds>(final(self).status_of()),
    {
        if !(pos.0 < self.rows && pos.1 < self.cols) {
            return Err(OutOfBounds);
        }
        let mut cell = self.cells[pos.0 as usize][pos.1 as usize];
        if cell.is_shown() {
            return Ok(self.status());
        }
        let ghost g0 = *self;
        cell.toggle_flag();
        self.set_cell(pos, cell);
        proof {
            lemma_counts_kept(g0, *self);
            lemma_wf_kept(g0, *self);
        }
        Ok(self.status())
    }

    /// The cell after one more mined neighbour was counted: a mine stays a mine.
    pub open spec fn bumped(c: Cell) -> Cell {
        if c.mined() {
            c
        } else {
            Cell { value: CellValue::BombsAround((c.count() + 1) as u8), ..c }
        }
    }

    /// `other` is `self` with a mine at `p` and its neighbours' counts raised.
    pub open spec fn planted(self, other: Game, p: Pos) -> bool {
        &&& other.shaped()
        &&& other.spec_rows() == self.spec_rows()
        &&& other.spec_cols() == self.spec_cols()
        &&& other.spec_bombs() == self.spec_bombs()
        &&& other.spec_lost() == self.spec_lost()
        &&& other.at(p) == (Cell { value: CellValue::Bomb, ..self.at(p) })
        &&& forall|q: Pos| self.in_bounds(q) && q != p ==> #[trigger] other.at(q) == if is_neighbor(p, q) {
            Game::bumped(self.at(q))
        } else {
            self.at(q)
        }
    }

    /// Mines `pos` and counts it in each neighbour that is not itself mined.
    /// A position is mined at most once.
    pub fn plant_bomb(&mut self, pos: Pos) -> (r: Result<(), OutOfBounds>)
        requires
            old(self).wf(),
            old(self).in_bounds(pos) ==> !old(self).at(pos).mined(),
        ensures
            final(self).wf(),
            !old(self).in_bounds(pos) ==> r == Err::<(), OutOfBounds>(OutOfBounds) && *final(self) == *old(self),
            old(self).in_bounds(pos) ==> r == Ok::<(), OutOfBounds>(()) && old(self).planted(*final(self), pos),
    {
        if !(pos.0 < self.rows && pos.1 < self.cols) {
            return Err(OutOfBounds);
        }
        let ghost g0 = *self;
        proof {
            assert forall|q: Pos| g0.in_bounds(q) && is_neighbor(pos, q) implies #[trigger] g0.at(q).count() < 255 by {
                lemma_mined_around_small(g0, q);
            }
        }
        let mut cell = self.cells[pos.0 as usize][pos.1 as usize];
        cell.plant_bomb();
        self.set_cell(pos, cell);
        let ns = self.iter_neighbors(pos);
        let mut i: usize = 0;
        while i < ns.len()
            invariant
                g0.wf(),
                g0.in_bounds(pos),
                self.shaped(),
                self.spec_rows() == g0.spec_rows(),
                self.spec_cols() == g0.spec_cols(),
                self.spec_bombs() == g0.spec_bombs(),
                self.spec_lost() == g0.spec_lost(),
                i <= ns@.len(),
                ns@.no_duplicates(),
                forall|q: Pos| #[trigger] ns@.contains(q) <==> g0.in_bounds(q) && is_neighbor(pos, q),
                forall|q: Pos| g0.in_bounds(q) && is_neighbor(pos, q) ==> #[trigger] g0.at(q).count() < 255,
                self.at(pos) == (Cell { value: CellValue::Bomb, ..g0.at(pos) }),
                forall|q: Pos| g0.in_bounds(q) && q != pos ==> #[trigger] self.at(q) == if ns@.subrange(0, i as int).contains(q) {
                    Game::bumped(g0.at(q))
                } else {
                    g0.at(q)
                },
            decreases ns@.len() - i,
        {
            let q = ns[i];
            proof {
                assert(ns@.contains(q));
                assert(!ns@.subrange(0, i as int).contains(q));
                assert(g0.in_bounds(q) && is_neighbor(pos, q));
                assert(self.at(q) == g0.at(q));
                assert(g0.at(q).count() < 255);
            }
            let mut c = self.cells[q.0 as usize][q.1 as usize];
            if !c.is_mined() {
                c.inc_bombs_around();
                self.set_cell(q, c);
            }
            proof {
                assert forall|q2: Pos| g0.in_bounds(q2) && q2 != pos implies #[trigger] self.at(q2) == if ns@.subrange(0, i + 1).contains(q2) {
                    Game::bumped(g0.at(q2))
                } else {
                    g0.at(q2)
                } by {
                    if ns@.subrange(0, i + 1).contains(q2) && q2 != q {
                        let k = choose|k: int| 0 <= k < i + 1 && #[trigger] ns@.subrange(0, i + 1)[k] == q2;
                        assert(ns@.subrange(0, i as int)[k] == q2);
                    }
                    if ns@.subrange(0, i as int).contains(q2) {
                        let k = choose|k: int| 0 <= k < i && #[trigger] ns@.subrange(0, i as int)[k] == q2;
                        assert(ns@.subrange(0, i + 1)[k] == q2);
                    }
                    if q2 == q {
                        assert(ns@.subrange(0, i + 1)[i as int] == q2);
                    }
                }
            }
            i = i + 1;
        }
        proof {
            assert(ns@.subrange(0, ns@.len() as int) =~= ns@);
            assert forall|q: Pos| #![trigger self.at(q)] g0.in_bounds(q) implies self.at(q).exploded == g0.at(q).exploded
                && (self.at(q).exploded ==> self.at(q).mined() && self.at(q).shown && !self.at(q).flagged) by {
                if q != pos {
                    assert(self.at(q) == Game::bumped(g0.at(q)) || self.at(q) == g0.at(q));
                    if self.at(q).exploded {
                        assert(g0.at(q).exploded);
                        assert(self.at(q) == g0.at(q));
                    }
                }
            }
            lemma_counts_planted(g0, *self, pos);
            lemma_wf_kept(g0, *self);
        }
        Ok(())
    }

    /// Between `self` and `other` flags, contents and explosions stay, no cell is hidden
    /// again, and any cell newly shown is neither mined nor flagged.
    pub open spec fn swept(self, other: Game) -> bool {
        &&& other.shaped()
        &&& other.spec_rows() == self.spec_rows()
        &&& other.spec_cols() == self.spec_cols()
        &&& other.spec_bombs() == self.spec_bombs()
        &&& other.spec_lost() == self.spec_lost()
        &&& forall|q: Pos| #![trigger other.at(q)] self.in_bounds(q) ==> {
            &&& other.at(q).flagged == self.at(q).flagged
            &&& other.at(q).value == self.at(q).value
            &&& other.at(q).exploded == self.at(q).exploded
            &&& (self.at(q).shown ==> other.at(q).shown)
            &&& (other.at(q).shown && !self.at(q).shown ==> !self.at(q).mined() && !self.at(q).flagged)
        }
    }

    /// Each cell that came to light in `other` with no mined neighbour has every neighbour
    /// shown, mined or flagged: the reveal spread as far as it could.
    pub open spec fn spread(self, other: Game) -> bool {
        forall|q: Pos, n: Pos| #![trigger other.at(q), other.at(n)]
            self.in_bounds(q) && self.in_bounds(n) && is_neighbor(q, n)
            && other.at(q).shown && !self.at(q).shown && !self.at(q).mined() && self.at(q).count() == 0
            ==> other.at(n).shown || self.at(n).mined() || self.at(n).flagged
    }

    /// Each cell that `other` shows and `self` did not, but `start`, lies next to a cell
    /// newly shown with no mined neighbour: the reveal went no further than the spread.
    pub open spec fn reached(self, other: Game, start: Pos) -> bool {
        forall|q: Pos| #![trigger other.at(q)] self.in_bounds(q) && q != start && other.at(q).shown && !self.at(q).shown
            ==> self.zero_next_to(other, q)
    }

    /// Some neighbour of `q` is newly shown in `other`, not mined, with no mined neighbour.
    pub open spec fn zero_next_to(self, other: Game, q: Pos) -> bool {
        exists|z: Pos| #![trigger other.at(z)] self.in_bounds(z) && is_neighbor(z, q) && other.at(z).shown
            && !self.at(z).shown && !self.at(z).mined() && self.at(z).count() == 0
    }

    /// Reveals `start` unless it is shown, mined or flagged, and from each revealed cell
    /// with no mined neighbour goes on to its neighbours. The shown flag marks a visited cell.
    fn sweep_mine(&mut self, start: Pos)
        requires
            old(self).shaped(),
            old(self).in_bounds(start),
        ensures
            old(self).swept(*final(self)),
            old(self).spread(*final(self)),
            old(self).reached(*final(self), start),
            final(self).at(start).shown || old(self).at(start).mined() || old(self).at(start).flagged,
    {
        let ghost g0 = *self;
        let mut stack: Vec<Pos> = Vec::new();
        stack.push(start);
        proof {
            assert(stack@[0] == start);
        }
        while stack.len() > 0
            invariant
                g0.shaped(),
                g0.in_bounds(start),
                g0.swept(*self),
                forall|k: int| 0 <= k < stack@.len() ==> g0.in_bounds(#[trigger] stack@[k]),
                forall|q: Pos, n: Pos| #![trigger self.at(q), self.at(n)]
                    g0.in_bounds(q) && g0.in_bounds(n) && is_neighbor(q, n)
                    && self.at(q).shown && !g0.at(q).shown && g0.at(q).count() == 0
                    ==> self.at(n).shown || g0.at(n).mined() || g0.at(n).flagged || stack@.contains(n),
                self.at(start).shown || g0.at(start).mined() || g0.at(start).flagged || stack@.contains(start),
                g0.reached(*self, start),
                forall|k: int| 0 <= k < stack@.len() && #[trigger] stack@[k] != start ==> g0.zero_next_to(*self, stack@[k]),
            decreases self.hidden_count(), stack@.len(),
        {
            let ghost st0 = stack@;
            let ghost before = *self;
            let p = stack.pop().unwrap();
            proof {
                assert(st0[st0.len() - 1] == p);
                assert forall|n: Pos| st0.contains(n) && n != p implies stack@.contains(n) by {
                    let k = choose|k: int| 0 <= k < st0.len() && #[trigger] st0[k] == n;
                    assert(stack@[k] == n);
                }
                assert(g0.in_bounds(st0[st0.len() - 1]));
            }
            let mut c = self.cells[p.0 as usize][p.1 as usize];
            let ghost revealed = !(c.shown || c.mined() || c.flagged);
            if !(c.is_shown() || c.is_mined() || c.is_flagged()) {
                c.show();
                self.set_cell(p, c);
                if c.bombs_around() == 0 {
                    let ghost mid = stack@;
                    let mut ns = self.iter_neighbors(p);
                    let ghost nv = ns@;
                    stack.append(&mut ns);
                    proof {
                        assert forall|n: Pos| mid.contains(n) || nv.contains(n) implies stack@.contains(n) by {
                            if mid.contains(n) {
                                let k = choose|k: int| 0 <= k < mid.len() && #[trigger] mid[k] == n;
                                assert(stack@[k] == n);
                            } else {
                                let k = choose|k: int| 0 <= k < nv.len() && #[trigger] nv[k] == n;
                                assert(stack@[mid.len() + k] == n);
                            }
                        }
                        assert forall|k: int| 0 <= k < stack@.len() implies (k < st0.len() - 1 && #[trigger] stack@[k] == st0[k])
                            || is_neighbor(p, stack@[k]) by {
                            if k >= mid.len() {
                                assert(nv[k - mid.len()] == stack@[k]);
                                assert(nv.contains(stack@[k]));
                            } else {
                                assert(mid[k] == stack@[k]);
                            }
                        }
                        assert(forall|n: Pos| g0.in_bounds(n) && is_neighbor(p, n) ==> nv.contains(n));
                        assert(forall|n: Pos| g0.in_bounds(n) && is_neighbor(p, n) ==> stack@.contains(n));
                        assert forall|k: int| 0 <= k < stack@.len() implies g0.in_bounds(#[trigger] stack@[k]) by {
                            if k >= mid.len() {
                                assert(nv[k - mid.len()] == stack@[k]);
                                assert(nv.contains(stack@[k]));
                            } else {
                                assert(mid[k] == stack@[k]);
                                assert(st0[k] == stack@[k]);
                            }
                        }
                    }
                } else {
                    proof {
                        assert forall|k: int| 0 <= k < stack@.len() implies g0.in_bounds(#[trigger] stack@[k]) by {
                            assert(st0[k] == stack@[k]);
                        }
                        assert(forall|k: int| 0 <= k < stack@.len() ==> (k < st0.len() - 1 && #[trigger] stack@[k] == st0[k]));
                    }
                }
            } else {
                proof {
                    assert forall|k: int| 0 <= k < stack@.len() implies g0.in_bounds(#[trigger] stack@[k]) by {
                        assert(st0[k] == stack@[k]);
                    }
                    assert(forall|k: int| 0 <= k < stack@.len() ==> (k < st0.len() - 1 && #[trigger] stack@[k] == st0[k]));
                }
            }
            proof {
                assert forall|z: Pos| #![trigger self.at(z)] g0.in_bounds(z) && before.at(z).shown implies self.at(z).shown by {
                    if z != p {
                        assert(self.at(z) == before.at(z));
                    }
                }
                assert forall|q: Pos| g0.zero_next_to(before, q) implies g0.zero_next_to(*self, q) by {
                    let z = choose|z: Pos| #![trigger before.at(z)] g0.in_bounds(z) && is_neighbor(z, q) && before.at(z).shown
                        && !g0.at(z).shown && !g0.at(z).mined() && g0.at(z).count() == 0;
                    assert(self.at(z).shown);
                }
                assert(g0.in_bounds(p));
                if revealed {
                    assert(self.at(p).shown && !g0.at(p).shown && !g0.at(p).mined());
                    assert(self.at(p).count() == g0.at(p).count());
                }
                assert(st0.len() - 1 >= 0 && st0[st0.len() - 1] == p);
                assert(p != start ==> g0.zero_next_to(before, p));
                assert forall|q: Pos| #![trigger self.at(q)] g0.in_bounds(q) && q != start && self.at(q).shown && !g0.at(q).shown
                    implies g0.zero_next_to(*self, q) by {
                    if q != p || !revealed {
                        assert(self.at(q) == before.at(q));
                    }
                }
                assert forall|k: int| 0 <= k < stack@.len() && #[trigger] stack@[k] != start implies g0.zero_next_to(*self, stack@[k]) by {
                    if k < st0.len() - 1 && stack@[k] == st0[k] {
                        assert(g0.zero_next_to(before, st0[k]));
                    } else {
                        assert(self.at(p).shown);
                    }
                }
                assert(forall|n: Pos| st0.contains(n) && n != p ==> stack@.contains(n));
                assert(revealed && self.at(p).count() == 0 ==>
                    forall|n: Pos| g0.in_bounds(n) && is_neighbor(p, n) ==> stack@.contains(n));
                assert forall|q: Pos, n: Pos| #![trigger self.at(q), self.at(n)]
                    g0.in_bounds(q) && g0.in_bounds(n) && is_neighbor(q, n)
                    && self.at(q).shown && !g0.at(q).shown && g0.at(q).count() == 0
                    implies self.at(n).shown || g0.at(n).mined() || g0.at(n).flagged || stack@.contains(n) by {
                    assert(before.at(q) == g0.at(q) || before.at(q).shown);
                    if n != p {
                        assert(self.at(n) == before.at(n));
                    }
                    if q != p {
                        assert(self.at(q) == before.at(q));
                        assert(before.at(n).shown || g0.at(n).mined() || g0.at(n).flagged || st0.contains(n));
                    } else if !revealed {
                        assert(self.at(p) == before.at(p));
                        assert(before.at(n).shown || g0.at(n).mined() || g0.at(n).flagged || st0.contains(n));
                    } else {
                        assert(self.at(p).count() == g0.at(p).count());
                    }
                }
            }
        }
    }

    /// `other` is `self` after opening the hidden, unflagged cell `p`: a mine there explodes
    /// and loses the game; otherwise `p` is shown, and the reveal spreads from each newly
    /// shown cell with no mined neighbour to all its neighbours but mines and flags, and
    /// reaches no cell that does not border such a cell.
    pub open spec fn opened(self, other: Game, p: Pos) -> bool {
        &&& other.shaped()
        &&& other.spec_rows() == self.spec_rows()
        &&& other.spec_cols() == self.spec_cols()
        &&& other.spec_bombs() == self.spec_bombs()
        &&& other.spec_lost() == (self.spec_lost() || self.at(p).mined())
        &&& other.at(p).shown
        &&& forall|q: Pos| #![trigger other.at(q)] self.in_bounds(q) ==> {
            &&& other.at(q).flagged == self.at(q).flagged
            &&& other.at(q).value == self.at(q).value
            &&& other.at(q).exploded == (self.at(q).exploded || (q == p && self.at(p).mined()))
            &&& (self.at(q).shown ==> other.at(q).shown)
            &&& (other.at(q).shown && !self.at(q).shown && q != p ==> !self.at(q).mined() && !self.at(q).flagged)
        }
        &&& self.spread(other)
        &&& self.reached(other, p)
    }

    /// Opens `pos`. A shown or flagged cell is left as it is.
    pub fn open(&mut self, pos: Pos) -> (r: Result<Status, OutOfBounds>)
        requires
            old(self).wf(),
        ensures
            final(self).wf(),
            !old(self).in_bounds(pos) ==> r == Err::<Status, OutOfBounds>(OutOfBounds) && *final(self) == *old(self),
            old(self).in_bounds(pos) && (old(self).at(pos).shown || old(self).at(pos).flagged) ==> *final(self) == *old(self)
                && r == Ok::<Status, OutOfBounds>(old(self).status_of()),
            old(self).in_bounds(pos) && !old(self).at(pos).shown && !old(self).at(pos).flagged ==> old(self).opened(*final(self), pos)
                && r == Ok::<Status, OutOfBounds>(final(self).status_of()),
    {
        if !(pos.0 < self.rows && pos.1 < self.cols) {
            return Err(OutOfBounds);
        }
        let ghost g0 = *self;
        let mut cell = self.cells[pos.0 as usize][pos.1 as usize];
        if cell.is_shown() || cell.is_flagged() {
            return Ok(self.status());
        }
        if cell.is_mined() {
            cell.explode();
            cell.show();
            self.set_cell(pos, cell);
            let ghost gm = *self;
            self.has_lost = true;
            proof {
                assert(self.grid() == gm.grid());
                assert(forall|q: Pos| g0.in_bounds(q) && q != pos ==> #[trigger] self.at(q) == gm.at(q));
            }
        }
        let ghost g1 = *self;
        self.sweep_mine(pos);
        proof {
            assert forall|q: Pos, n: Pos| #![trigger self.at(q), self.at(n)]
                g0.in_bounds(q) && g0.in_bounds(n) && is_neighbor(q, n)
                && self.at(q).shown && !g0.at(q).shown && !g0.at(q).mined() && g0.at(q).count() == 0
                implies self.at(n).shown || g0.at(n).mined() || g0.at(n).flagged by {
                assert(g1.at(q) == g0.at(q));
                assert(g1.at(n).value == g0.at(n).value && g1.at(n).flagged == g0.at(n).flagged);
            }
            assert forall|q: Pos| #![trigger self.at(q)] g0.in_bounds(q) implies self.at(q).value == g0.at(q).value by {
                assert(g1.at(q).value == g0.at(q).value);
            }
            lemma_counts_kept(g0, *self);
            assert forall|q: Pos| #![trigger self.at(q)] g0.in_bounds(q) && q != pos && self.at(q).shown && !g0.at(q).shown
                implies g0.zero_next_to(*self, q) by {
                assert(g1.at(q) == g0.at(q));
                assert(g1.zero_next_to(*self, q));
                let z = choose|z: Pos| #![trigger self.at(z)] g1.in_bounds(z) && is_neighbor(z, q) && self.at(z).shown
                    && !g1.at(z).shown && !g1.at(z).mined() && g1.at(z).count() == 0;
                assert(z != pos || !g0.at(pos).mined());
                assert(g1.at(z) == g0.at(z));
            }
            if g0.at(pos).mined() {
                assert(self.at(pos).exploded);
                assert forall|q: Pos| #![trigger self.at(q)] g0.in_bounds(q) && self.at(q).exploded
                    implies self.at(q).mined() && self.at(q).shown && !self.at(q).flagged by {
                    if q != pos {
                        assert(g1.at(q) == g0.at(q));
                    }
                }
            } else {
                assert forall|q: Pos| #![trigger self.at(q)] g0.in_bounds(q) implies self.at(q).exploded == g0.at(q).exploded
                    && (self.at(q).exploded ==> self.at(q).mined() && self.at(q).shown && !self.at(q).flagged) by {
                    assert(g1.at(q) == g0.at(q));
                }
                lemma_wf_kept(g0, *self);
            }
        }
        Ok(self.status())
    }
}

} // verus!
