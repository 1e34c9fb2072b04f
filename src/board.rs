//! The board engine: a `width` by `height` grid of tiles stored column by
//! column, so that cell `(x, y)` sits at index `x * height + y`.
use vstd::prelude::*;
use crate::tile::{Tile, RevealOutcome, is_mine_like, is_unopened, flagged};
use crate::flood::{
    cell, on, count_mines, mine_count, flood_result, cleared, clear_cells, reveal_result,
    lemma_cleared, lemma_clear_cells, lemma_flood_no_new_mines, lemma_flood_opens_start, safe_count, fill_inv, lemma_fill_init, lemma_fill_top,
    lemma_fill_skip, lemma_fill_open, lemma_fill_done, lemma_safe_count_update,
    lemma_neighbours_on_board, lemma_count_same_mines, lemma_cell_update,
};

verus! {

/// Offset `k` of the eight compass directions, in the order the
/// neighbours of a cell are listed: E, W, S, N, SE, NE, SW, NW.
pub open spec fn offset(k: int) -> (int, int) {
    if k == 0 { (1, 0) }
    else if k == 1 { (-1, 0) }
    else if k == 2 { (0, 1) }
    else if k == 3 { (0, -1) }
    else if k == 4 { (1, 1) }
    else if k == 5 { (1, -1) }
    else if k == 6 { (-1, 1) }
    else { (-1, -1) }
}

/// The in-bounds cells among the first `k` offsets from `(x, y)`, in order.
pub open spec fn neighbours_upto(w: int, h: int, x: int, y: int, k: int) -> Seq<(usize, usize)>
    decreases k,
{
    if k <= 0 {
        seq![]
    } else {
        let prev = neighbours_upto(w, h, x, y, k - 1);
        let nx = x + offset(k - 1).0;
        let ny = y + offset(k - 1).1;
        if 0 <= nx < w && 0 <= ny < h {
            prev.push((nx as usize, ny as usize))
        } else {
            prev
        }
    }
}

/// The grid neighbours of `(x, y)` that lie on a `w` by `h` board.
#[verifier::opaque]
pub open spec fn neighbours(w: int, h: int, x: int, y: int) -> Seq<(usize, usize)> {
    neighbours_upto(w, h, x, y, 8)
}

/// Where cell `(x, y)` is stored.
pub open spec fn index(h: int, x: int, y: int) -> int {
    x * h + y
}

/// The grid as laid out by placing a mine at each position of `mines` in
/// turn on an all-safe board (a repeated position stays one mine).
pub open spec fn layout(w: int, h: int, mines: Seq<(usize, usize)>) -> Seq<Tile>
    decreases mines.len(),
{
    if mines.len() == 0 {
        Seq::new((w * h) as nat, |i: int| Tile::Safe)
    } else {
        let m = mines.last();
        layout(w, h, mines.drop_last()).update(index(h, m.0 as int, m.1 as int), Tile::Mine)
    }
}

/// The grid after toggling the flag on `(x, y)`.
pub open spec fn flag_result(s: Seq<Tile>, h: int, x: int, y: int) -> Seq<Tile> {
    s.update(index(h, x, y), flagged(s[index(h, x, y)]))
}

/// Flagging the same cell twice gives the grid back, and flagging a
/// revealed cell changes nothing.
pub proof fn lemma_flag_twice(w: int, h: int, s: Seq<Tile>, x: int, y: int)
    requires
        s.len() == w * h,
        on_board(w, h, x, y),
    ensures
        flag_result(flag_result(s, h, x, y), h, x, y) == s,
        s[index(h, x, y)] is Revealed ==> flag_result(s, h, x, y) == s,
{
    lemma_index_bounds(w, h, x, y);
    assert(flag_result(flag_result(s, h, x, y), h, x, y) =~= s);
    assert(s[index(h, x, y)] is Revealed ==> flag_result(s, h, x, y) =~= s);
}

/// How many of the columns `x - 1, x, x + 1` (or rows) lie in `0..n`.
pub open spec fn span(n: int, x: int) -> int {
    (if x > 0 { 1int } else { 0int }) + 1 + (if x + 1 < n { 1int } else { 0int })
}

/// A cell has one neighbour for each other cell of the block of columns
/// and rows round it that lies on the board; a corner of a board at least
/// two wide and two high has three.
pub proof fn lemma_neighbours_len(w: int, h: int, x: int, y: int)
    requires
        on_board(w, h, x, y),
    ensures
        neighbours(w, h, x, y).len() == span(w, x) * span(h, y) - 1,
        w >= 2 && h >= 2 && (x == 0 || x == w - 1) && (y == 0 || y == h - 1) ==> neighbours(w, h, x, y).len() == 3,
{
    reveal(neighbours);
    reveal_with_fuel(neighbours_upto, 9);
    let sw = span(w, x);
    let sh = span(h, y);
    assert(sw * sh - 1 == sw * sh - 1);
    if sw == 1 { assert(sw * sh == sh); }
    if sw == 2 { assert(sw * sh == sh + sh); }
    if sw == 3 { assert(sw * sh == sh + sh + sh); }
}

/// No tile is left that is `Mine` or `Safe`.
pub open spec fn solved(tiles: Seq<Tile>) -> bool {
    forall|i: int| 0 <= i < tiles.len() ==> !is_unopened(#[trigger] tiles[i])
}

/// The cell lies on a `w` by `h` board.
pub open spec fn on_board(w: int, h: int, x: int, y: int) -> bool {
    0 <= x < w && 0 <= y < h
}

pub proof fn lemma_index_bounds(w: int, h: int, x: int, y: int)
    requires
        on_board(w, h, x, y),
    ensures
        0 <= index(h, x, y) < w * h,
{
    assert(0 <= x * h + y < w * h) by (nonlinear_arith)
        requires 0 <= x < w, 0 <= y < h;
}

pub proof fn lemma_index_injective(w: int, h: int, x1: int, y1: int, x2: int, y2: int)
    requires
        on_board(w, h, x1, y1),
        on_board(w, h, x2, y2),
        index(h, x1, y1) == index(h, x2, y2),
    ensures
        x1 == x2 && y1 == y2,
{
    if x1 < x2 {
        assert(x1 * h + h <= x2 * h) by (nonlinear_arith)
            requires x1 < x2, h > 0;
    } else if x2 < x1 {
        assert(x2 * h + h <= x1 * h) by (nonlinear_arith)
            requires x2 < x1, h > 0;
    }
}


/// Every tile of a fresh layout is `Mine` or `Safe`.
pub proof fn lemma_layout_unopened(w: int, h: int, mines: Seq<(usize, usize)>)
    requires
        w > 0,
        h > 0,
        forall|i: int| 0 <= i < mines.len() ==> on_board(w, h, #[trigger] mines[i].0 as int, mines[i].1 as int),
    ensures
        layout(w, h, mines).len() == w * h,
        forall|i: int| 0 <= i < w * h ==> is_unopened(#[trigger] layout(w, h, mines)[i]),
    decreases mines.len(),
{
    assert(w * h > 0) by (nonlinear_arith)
        requires w > 0, h > 0;
    if mines.len() > 0 {
        let m = mines.last();
        assert(on_board(w, h, mines[mines.len() - 1].0 as int, mines[mines.len() - 1].1 as int));
        lemma_index_bounds(w, h, m.0 as int, m.1 as int);
        lemma_layout_unopened(w, h, mines.drop_last());
    }
}

/// Relies on rand's `Rng::gen_range` over the thread-local generator: a
/// value drawn from `0..bound`, which must not be empty.
#[verifier::external_body]
fn random_below(bound: usize) -> (r: usize)
    requires
        bound > 0,
    ensures
        r < bound,
{
    rand::Rng::gen_range(&mut rand::thread_rng(), 0..bound)
}

/// The game state: the grid, whether the game has ended, and whether the
/// first reveal (which clears the area round it) is still to come.
pub struct Board {
    pub width: usize,
    pub height: usize,
    pub tiles: Vec<Tile>,
    pub game_over: bool,
    pub first_reveal: bool,
}

impl Board {
    /// The dimensions are positive, the cell count fits, and there is one
    /// tile per cell.
    pub open spec fn wf(&self) -> bool {
        &&& self.width > 0
        &&& self.height > 0
        &&& self.width * self.height <= usize::MAX
        &&& self.tiles@.len() == self.width * self.height
    }

    /// The tile at `(x, y)`.
    pub open spec fn at(&self, x: int, y: int) -> Tile {
        self.tiles@[index(self.height as int, x, y)]
    }

    /// The neighbours of `(x, y)` on this board.
    pub open spec fn neighbours_of(&self, x: int, y: int) -> Seq<(usize, usize)> {
        neighbours(self.width as int, self.height as int, x, y)
    }

    /// The in-bounds grid neighbours of `(x, y)`, in the fixed order of
    /// `offset`.
    pub fn get_adjacent(&self, x: usize, y: usize) -> (r: Vec<(usize, usize)>)
        requires
            x < self.width,
            y < self.height,
        ensures
            r@ == self.neighbours_of(x as int, y as int),
    {
        proof {
            reveal(neighbours);
        }
        let offsets: [(i8, i8); 8] = [(1, 0), (-1, 0), (0, 1), (0, -1), (1, 1), (1, -1), (-1, 1), (-1, -1)];
        let mut r: Vec<(usize, usize)> = Vec::new();
        let mut k: usize = 0;
        while k < 8
            invariant
                k <= 8,
                x < self.width,
                y < self.height,
                forall|j: int| 0 <= j < 8 ==> offsets@[j].0 == offset(j).0 && offsets@[j].1 == offset(j).1,
                r@ == neighbours_upto(self.width as int, self.height as int, x as int, y as int, k as int),
            decreases 8 - k,
        {
            let (dx, dy) = offsets[k];
            let nx: Option<usize> = if dx < 0 {
                if x == 0 { None } else { Some(x - 1) }
            } else if dx > 0 {
                Some(x + 1)
            } else {
                Some(x)
            };
            let ny: Option<usize> = if dy < 0 {
                if y == 0 { None } else { Some(y - 1) }
            } else if dy > 0 {
                Some(y + 1)
            } else {
                Some(y)
            };
            if let (Some(nx), Some(ny)) = (nx, ny) {
                if nx < self.width && ny < self.height {
                    r.push((nx, ny));
                }
            }
            k = k + 1;
        }
        r
    }

    /// An unplayed board with a mine at each position of `mines`, in bounds.
    pub fn with_mines(width: usize, height: usize, mines: &Vec<(usize, usize)>) -> (b: Board)
        requires
            width > 0,
            height > 0,
            width * height <= usize::MAX,
            forall|i: int| 0 <= i < mines@.len() ==> on_board(width as int, height as int, #[trigger] mines@[i].0 as int, mines@[i].1 as int),
        ensures
            b.wf(),
            b.width == width,
            b.height == height,
            b.tiles@ == layout(width as int, height as int, mines@),
            !b.game_over,
            b.first_reveal,
    {
        let n: usize = width * height;
        let mut tiles: Vec<Tile> = Vec::new();
        let mut i: usize = 0;
        while i < n
            invariant
                i <= n,
                tiles@ == Seq::new(i as nat, |j: int| Tile::Safe),
            decreases n - i,
        {
            tiles.push(Tile::Safe);
            i = i + 1;
            assert(tiles@ =~= Seq::new(i as nat, |j: int| Tile::Safe));
        }
        let mut k: usize = 0;
        while k < mines.len()
            invariant
                k <= mines@.len(),
                n == width * height,
                width > 0,
                height > 0,
                forall|i: int| 0 <= i < mines@.len() ==> on_board(width as int, height as int, #[trigger] mines@[i].0 as int, mines@[i].1 as int),
                tiles@ == layout(width as int, height as int, mines@.take(k as int)),
                tiles@.len() == n,
            decreases mines@.len() - k,
        {
            let (x, y) = mines[k];
            proof {
                lemma_index_bounds(width as int, height as int, x as int, y as int);
                assert(mines@.take(k + 1).drop_last() =~= mines@.take(k as int));
            }
            tiles.set(x * height + y, Tile::Mine);
            k = k + 1;
        }
        assert(mines@.take(mines@.len() as int) =~= mines@);
        Board { width, height, tiles, game_over: false, first_reveal: true }
    }

    /// A new board with `mine_count` mines dropped on uniformly random cells;
    /// a cell drawn twice holds one mine, so fewer may end up on the board.
    pub fn new(width: usize, height: usize, mine_count: usize) -> (b: Board)
        requires
            width > 0,
            height > 0,
            width * height <= usize::MAX,
        ensures
            b.wf(),
            b.width == width,
            b.height == height,
            !b.game_over,
            b.first_reveal,
            exists|mines: Seq<(usize, usize)>| {
                &&& mines.len() == mine_count
                &&& forall|i: int| 0 <= i < mines.len() ==> on_board(width as int, height as int, #[trigger] mines[i].0 as int, mines[i].1 as int)
                &&& b.tiles@ == layout(width as int, height as int, mines)
            },
            !solved(b.tiles@),
    {
        let mut mines: Vec<(usize, usize)> = Vec::new();
        let mut k: usize = 0;
        while k < mine_count
            invariant
                k <= mine_count,
                mines@.len() == k,
                width > 0,
                height > 0,
                forall|i: int| 0 <= i < mines@.len() ==> on_board(width as int, height as int, #[trigger] mines@[i].0 as int, mines@[i].1 as int),
            decreases mine_count - k,
        {
            let x = random_below(width);
            let y = random_below(height);
            mines.push((x, y));
            k = k + 1;
        }
        let b = Board::with_mines(width, height, &mines);
        proof {
            lemma_layout_unopened(width as int, height as int, mines@);
            lemma_index_bounds(width as int, height as int, 0, 0);
            assert(is_unopened(b.tiles@[0]));
        }
        b
    }

    /// Whether no tile is left `Mine` or `Safe`. A flagged safe tile does
    /// not hold the game back: such a board counts as solved, so a game can
    /// be won without opening every safe tile. This looks unintended but is
    /// the rule as the game has always played it.
    pub fn is_solved(&self) -> (r: bool)
        ensures
            r == solved(self.tiles@),
    {
        let mut i: usize = 0;
        while i < self.tiles.len()
            invariant
                i <= self.tiles@.len(),
                forall|j: int| 0 <= j < i ==> !is_unopened(#[trigger] self.tiles@[j]),
            decreases self.tiles@.len() - i,
        {
            if self.tiles[i].is_unopened() {
                return false;
            }
            i = i + 1;
        }
        true
    }

    /// Toggles the flag on `(x, y)`: `Safe` and `FlaggedSafe` swap, as do
    /// `Mine` and `FlaggedMine`; a revealed tile stays as it is.
    pub fn flag(&mut self, x: usize, y: usize)
        requires
            old(self).wf(),
            x < old(self).width,
            y < old(self).height,
        ensures
            final(self).wf(),
            final(self).width == old(self).width,
            final(self).height == old(self).height,
            final(self).game_over == old(self).game_over,
            final(self).first_reveal == old(self).first_reveal,
            final(self).tiles@ == flag_result(old(self).tiles@, old(self).height as int, x as int, y as int),
    {
        proof {
            lemma_index_bounds(self.width as int, self.height as int, x as int, y as int);
        }
        let i = x * self.height + y;
        let t = self.tiles[i].toggled();
        self.tiles.set(i, t);
    }

    /// Opens the `Safe` tile `(x, y)` and spreads from every opened tile
    /// with no neighbouring mine to its unopened neighbours. Each tile is
    /// opened at most once; an opened tile is never visited again.
    fn flood_fill(&mut self, x: usize, y: usize)
        requires
            old(self).wf(),
            x < old(self).width,
            y < old(self).height,
            old(self).at(x as int, y as int) is Safe,
        ensures
            final(self).wf(),
            final(self).width == old(self).width,
            final(self).height == old(self).height,
            final(self).game_over == old(self).game_over,
            final(self).first_reveal == old(self).first_reveal,
            flood_result(old(self).width as int, old(self).height as int, old(self).tiles@, (x, y), final(self).tiles@),
    {
        let ghost w = self.width as int;
        let ghost h = self.height as int;
        let ghost s0 = self.tiles@;
        let ghost start = (x, y);
        let mut stack: Vec<(usize, usize)> = vec![(x, y)];
        let ghost mut parent: Seq<(usize, usize)> = seq![(x, y)];
        let ghost mut paths: Map<(usize, usize), Seq<(usize, usize)>> = Map::empty();
        proof {
            assert(stack@ =~= seq![start]);
            lemma_fill_init(w, h, s0, start);
        }
        while stack.len() > 0
            invariant
                self.wf(),
                self.width == w,
                self.height == h,
                self.game_over == old(self).game_over,
                self.first_reveal == old(self).first_reveal,
                s0 == old(self).tiles@,
                start == (x, y),
                fill_inv(w, h, s0, self.tiles@, start, stack@, parent, paths),
            decreases safe_count(self.tiles@) * 9 + stack@.len(),
        {
            let ghost cur = self.tiles@;
            let ghost before = stack@;
            let ghost parent0 = parent;
            proof {
                lemma_fill_top(w, h, s0, cur, start, before, parent0, paths);
            }
            let (cx, cy) = stack.pop().unwrap();
            let ghost c = (cx, cy);
            proof {
                assert(c == before.last());
                parent = parent.drop_last();
                lemma_index_bounds(w, h, cx as int, cy as int);
            }
            let i = cx * self.height + cy;
            if self.tiles[i].is_unopened() {
                let adj = self.get_adjacent(cx, cy);
                proof {
                    lemma_neighbours_on_board(w, h, cx as int, cy as int);
                }
                let mut n: u8 = 0;
                let mut j: usize = 0;
                while j < adj.len()
                    invariant
                        self.wf(),
                        self.height == h,
                        self.width == w,
                        self.tiles@ == cur,
                        adj@ == neighbours(w, h, cx as int, cy as int),
                        adj@.len() <= 8,
                        forall|k: int| 0 <= k < adj@.len() ==> on(w, h, #[trigger] adj@[k]),
                        j <= adj@.len(),
                        n as nat == count_mines(cur, h, adj@.take(j as int)),
                        n <= j,
                    decreases adj@.len() - j,
                {
                    let (ax, ay) = adj[j];
                    proof {
                        assert(on(w, h, adj@[j as int]));
                        lemma_index_bounds(w, h, ax as int, ay as int);
                        assert(adj@.take(j + 1).drop_last() =~= adj@.take(j as int));
                    }
                    if self.tiles[ax * self.height + ay].is_mine_like() {
                        n = n + 1;
                    }
                    j = j + 1;
                }
                proof {
                    assert(adj@.take(adj@.len() as int) =~= adj@);
                    lemma_count_same_mines(w, h, cur, s0, adj@);
                }
                self.tiles.set(i, Tile::Revealed(n));
                proof {
                    lemma_safe_count_update(cur, i as int, Tile::Revealed(n));
                    lemma_cell_update(w, h, cur, c, Tile::Revealed(n));
                }
                let ghost popped = stack@;
                let ghost popped_parent = parent;
                if n == 0 {
                    let mut j: usize = 0;
                    while j < adj.len()
                        invariant
                            self.wf(),
                            self.height == h,
                            self.width == w,
                            self.tiles@ == cur.update(i as int, Tile::Revealed(n)),
                            n == 0,
                            adj@ == neighbours(w, h, cx as int, cy as int),
                            adj@.len() <= 8,
                            forall|k: int| 0 <= k < adj@.len() ==> on(w, h, #[trigger] adj@[k]),
                            j <= adj@.len(),
                            stack@.len() <= popped.len() + j,
                            stack@.len() >= popped.len(),
                            parent.len() == stack@.len(),
                            popped_parent.len() == popped.len(),
                            stack@.subrange(0, popped.len() as int) == popped,
                            parent.subrange(0, popped.len() as int) == popped_parent,
                            forall|k: int| popped.len() <= k < stack@.len() ==> {
                                &&& adj@.contains(#[trigger] stack@[k])
                                &&& parent[k] == c
                            },
                            forall|k: int| 0 <= k < j && cell(self.tiles@, h, #[trigger] adj@[k]) is Safe
                                ==> stack@.contains(adj@[k]),
                        decreases adj@.len() - j,
                    {
                        let (ax, ay) = adj[j];
                        proof {
                            assert(on(w, h, adj@[j as int]));
                            lemma_index_bounds(w, h, ax as int, ay as int);
                        }
                        let ghost st = stack@;
                        let ghost pa = parent;
                        if self.tiles[ax * self.height + ay].is_unopened() {
                            stack.push((ax, ay));
                            proof {
                                parent = parent.push(c);
                                assert(stack@.subrange(0, popped.len() as int) =~= popped);
                                assert(parent.subrange(0, popped.len() as int) =~= popped_parent);
                                assert(stack@[stack@.len() - 1] == adj@[j as int]);
                                assert(adj@.contains(adj@[j as int]));
                                assert forall|k: int| 0 <= k < st.len() implies stack@[k] == st[k] && parent[k] == pa[k] by {}
                                assert forall|m: (usize, usize)| st.contains(m) implies stack@.contains(m) by {
                                    let k = choose|k: int| 0 <= k < st.len() && st[k] == m;
                                    assert(stack@[k] == m);
                                }
                                assert(stack@.contains(adj@[j as int]));
                            }
                        }
                        j = j + 1;
                    }
                } else {
                    proof {
                        assert(stack@.subrange(0, popped.len() as int) =~= popped);
                        assert(parent.subrange(0, popped.len() as int) =~= popped_parent);
                    }
                }
                proof {
                    assert(popped == before.drop_last());
                    assert(c == before.last());
                    assert forall|k: int| before.len() - 1 <= k < stack@.len() implies {
                        &&& n == 0
                        &&& neighbours(w, h, before.last().0 as int, before.last().1 as int).contains(#[trigger] stack@[k])
                        &&& parent[k] == before.last()
                    } by {
                        assert(adj@.contains(stack@[k]));
                    }
                    assert(self.tiles@ == cur.update(index(h, before.last().0 as int, before.last().1 as int), Tile::Revealed(n)));
                    assert(n as nat == mine_count(w, h, s0, before.last()));
                    assert(n == 0 ==> forall|k: int| 0 <= k < neighbours(w, h, before.last().0 as int, before.last().1 as int).len()
                        && cell(self.tiles@, h, #[trigger] neighbours(w, h, before.last().0 as int, before.last().1 as int)[k]) is Safe
                        ==> stack@.contains(neighbours(w, h, before.last().0 as int, before.last().1 as int)[k]));
                    lemma_fill_open(w, h, s0, cur, start, before, parent0, paths, n, self.tiles@, stack@, parent);
                    paths = paths.insert(c, if c == start { seq![start] } else { paths[parent0.last()].push(c) });
                }
            } else {
                proof {
                    lemma_fill_skip(w, h, s0, cur, start, before, parent0, paths);
                }
            }
        }
        proof {
            assert(stack@ =~= seq![]);
            lemma_fill_done(w, h, s0, self.tiles@, start, parent, paths);
        }
    }

    /// Reveals `(x, y)`. The first reveal of a game first sets `(x, y)` and
    /// all its neighbours to `Safe`, dropping any mines there. Then a mine
    /// explodes, a `Safe` tile floods, and a flagged or revealed tile is left
    /// as it is.
    pub fn reveal_at(&mut self, x: usize, y: usize) -> (r: RevealOutcome)
        requires
            old(self).wf(),
            x < old(self).width,
            y < old(self).height,
        ensures
            final(self).wf(),
            final(self).width == old(self).width,
            final(self).height == old(self).height,
            final(self).game_over == old(self).game_over,
            !final(self).first_reveal,
            reveal_result(old(self).width as int, old(self).height as int, old(self).tiles@,
                old(self).first_reveal, (x, y), final(self).tiles@, r),
            old(self).first_reveal ==> {
                &&& r == RevealOutcome::Continue
                &&& final(self).at(x as int, y as int) is Revealed
                &&& forall|k: int| 0 <= k < old(self).neighbours_of(x as int, y as int).len()
                    ==> !(#[trigger] cell(final(self).tiles@, old(self).height as int, old(self).neighbours_of(x as int, y as int)[k]) is Mine)
            },
            !old(self).first_reveal && old(self).at(x as int, y as int) is Mine ==> {
                &&& r == RevealOutcome::Exploded
                &&& final(self).tiles@ == old(self).tiles@
            },
    {
        let ghost w = self.width as int;
        let ghost h = self.height as int;
        let ghost c = (x, y);
        if self.first_reveal {
            self.clear_around(x, y);
            self.first_reveal = false;
        }
        let ghost s_ = self.tiles@;
        proof {
            lemma_index_bounds(w, h, x as int, y as int);
        }
        let i = x * self.height + y;
        let r = match self.tiles[i] {
            Tile::Mine => RevealOutcome::Exploded,
            Tile::Safe => {
                self.flood_fill(x, y);
                RevealOutcome::Continue
            },
            _ => RevealOutcome::Continue,
        };
        proof {
            if old(self).first_reveal {
                lemma_cleared(w, h, old(self).tiles@, c);
                lemma_neighbours_on_board(w, h, x as int, y as int);
                let nb = neighbours(w, h, x as int, y as int);
                assert(cell(s_, h, c) is Safe);
                lemma_flood_opens_start(w, h, s_, c, self.tiles@);
                assert forall|k: int| 0 <= k < nb.len() implies !(#[trigger] cell(self.tiles@, h, nb[k]) is Mine) by {
                    assert(nb.contains(nb[k]));
                    lemma_flood_no_new_mines(w, h, s_, c, self.tiles@, nb[k]);
                }
            }
        }
        r
    }

    /// Sets `(x, y)` and each of its neighbours to `Safe`.
    fn clear_around(&mut self, x: usize, y: usize)
        requires
            old(self).wf(),
            x < old(self).width,
            y < old(self).height,
        ensures
            final(self).wf(),
            final(self).width == old(self).width,
            final(self).height == old(self).height,
            final(self).game_over == old(self).game_over,
            final(self).first_reveal == old(self).first_reveal,
            final(self).tiles@ == cleared(old(self).width as int, old(self).height as int, old(self).tiles@, (x, y)),
    {
        let ghost w = self.width as int;
        let ghost h = self.height as int;
        proof {
            lemma_index_bounds(w, h, x as int, y as int);
        }
        self.tiles.set(x * self.height + y, Tile::Safe);
        let ghost s1 = self.tiles@;
        let adj = self.get_adjacent(x, y);
        proof {
            lemma_neighbours_on_board(w, h, x as int, y as int);
        }
        let mut j: usize = 0;
        while j < adj.len()
            invariant
                self.wf(),
                self.width == w,
                self.height == h,
                self.game_over == old(self).game_over,
                self.first_reveal == old(self).first_reveal,
                s1.len() == w * h,
                adj@ == neighbours(w, h, x as int, y as int),
                forall|k: int| 0 <= k < adj@.len() ==> on(w, h, #[trigger] adj@[k]),
                j <= adj@.len(),
                self.tiles@ == clear_cells(s1, h, adj@.take(j as int)),
            decreases adj@.len() - j,
        {
            let (ax, ay) = adj[j];
            proof {
                assert(on(w, h, adj@[j as int]));
                lemma_index_bounds(w, h, ax as int, ay as int);
                assert(adj@.take(j + 1).drop_last() =~= adj@.take(j as int));
                assert forall|k: int| 0 <= k < adj@.take(j as int).len() implies on(w, h, #[trigger] adj@.take(j as int)[k]) by {
                    assert(adj@.take(j as int)[k] == adj@[k]);
                }
                lemma_clear_cells(w, h, s1, adj@.take(j as int));
            }
            self.tiles.set(ax * self.height + ay, Tile::Safe);
            j = j + 1;
        }
        proof {
            assert(adj@.take(adj@.len() as int) =~= adj@);
        }
    }

    /// The tile at `(x, y)`.
    pub fn tile(&self, x: usize, y: usize) -> (t: Tile)
        requires
            self.wf(),
            x < self.width,
            y < self.height,
        ensures
            t == self.at(x as int, y as int),
    {
        proof {
            lemma_index_bounds(self.width as int, self.height as int, x as int, y as int);
        }
        self.tiles[x * self.height + y]
    }

    /// The cell that 1-based column `col` and row `row` name, as a player
    /// types them, or `None` when that lies off the board.
    pub fn locate(&self, col: usize, row: usize) -> (r: Option<(usize, usize)>)
        ensures
            r == if 1 <= col <= self.width && 1 <= row <= self.height {
                Some(((col - 1) as usize, (row - 1) as usize))
            } else {
                None::<(usize, usize)>
            },
    {
        if 1 <= col && col <= self.width && 1 <= row && row <= self.height {
            Some((col - 1, row - 1))
        } else {
            None
        }
    }
}

} // verus!
