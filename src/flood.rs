//! What a reveal does to the grid, stated over sequences of tiles: mine
//! counts, the first-reveal clear, and the region a flood fill opens.
use vstd::prelude::*;
use crate::tile::{Tile, RevealOutcome, is_mine_like, is_unopened};
use crate::board::{index, on_board, neighbours, neighbours_upto, lemma_index_bounds, lemma_index_injective};

verus! {

/// The tile of cell `c` in a grid of height `h`.
pub open spec fn cell(s: Seq<Tile>, h: int, c: (usize, usize)) -> Tile {
    s[index(h, c.0 as int, c.1 as int)]
}

/// The cell lies on a `w` by `h` board.
pub open spec fn on(w: int, h: int, c: (usize, usize)) -> bool {
    on_board(w, h, c.0 as int, c.1 as int)
}

/// How many of `cells` hold a tile that counts as a mine.
pub open spec fn count_mines(s: Seq<Tile>, h: int, cells: Seq<(usize, usize)>) -> nat
    decreases cells.len(),
{
    if cells.len() == 0 {
        0
    } else {
        count_mines(s, h, cells.drop_last()) + if is_mine_like(cell(s, h, cells.last())) { 1nat } else { 0nat }
    }
}

/// The number of neighbours of `c` that hold a mine, flagged or not.
pub open spec fn mine_count(w: int, h: int, s: Seq<Tile>, c: (usize, usize)) -> nat {
    count_mines(s, h, neighbours(w, h, c.0 as int, c.1 as int))
}

/// `s` with each of `cells` set to `Safe`, in turn.
pub open spec fn clear_cells(s: Seq<Tile>, h: int, cells: Seq<(usize, usize)>) -> Seq<Tile>
    decreases cells.len(),
{
    if cells.len() == 0 {
        s
    } else {
        let c = cells.last();
        clear_cells(s, h, cells.drop_last()).update(index(h, c.0 as int, c.1 as int), Tile::Safe)
    }
}

/// The grid after the first-reveal clear round `c`: `c` and its neighbours
/// are `Safe`, whatever they held.
pub open spec fn cleared(w: int, h: int, s: Seq<Tile>, c: (usize, usize)) -> Seq<Tile> {
    clear_cells(s.update(index(h, c.0 as int, c.1 as int), Tile::Safe), h, neighbours(w, h, c.0 as int, c.1 as int))
}

/// `p` is a walk from `start` along which a flood fill spreads: each step
/// leaves a cell with no neighbouring mine for a `Safe` neighbour of it.
pub open spec fn is_path(w: int, h: int, s: Seq<Tile>, start: (usize, usize), p: Seq<(usize, usize)>) -> bool {
    &&& p.len() > 0
    &&& p[0] == start
    &&& forall|i: int| 0 <= i < p.len() ==> on(w, h, #[trigger] p[i])
    &&& forall|i: int| 0 < i < p.len() ==> {
        &&& cell(s, h, #[trigger] p[i]) is Safe
        &&& mine_count(w, h, s, p[i - 1]) == 0
        &&& neighbours(w, h, p[i - 1].0 as int, p[i - 1].1 as int).contains(p[i])
    }
}

/// Cell `c` is opened by a flood fill from `start` on grid `s`.
pub open spec fn flood_reaches(w: int, h: int, s: Seq<Tile>, start: (usize, usize), c: (usize, usize)) -> bool {
    exists|p: Seq<(usize, usize)>| #[trigger] is_path(w, h, s, start, p) && p.last() == c
}

/// The tile of `c` after a flood fill from `start`: the cells it reaches are
/// revealed with their mine counts, the rest keep their tiles.
pub open spec fn flood_cell(w: int, h: int, s: Seq<Tile>, start: (usize, usize), c: (usize, usize)) -> Tile {
    if flood_reaches(w, h, s, start, c) {
        Tile::Revealed(mine_count(w, h, s, c) as u8)
    } else {
        cell(s, h, c)
    }
}

/// `s1` is the grid after a flood fill from `start` on `s0`.
pub open spec fn flood_result(w: int, h: int, s0: Seq<Tile>, start: (usize, usize), s1: Seq<Tile>) -> bool {
    &&& s1.len() == s0.len()
    &&& forall|c: (usize, usize)| on(w, h, c) ==> #[trigger] cell(s1, h, c) == flood_cell(w, h, s0, start, c)
}

pub proof fn lemma_neighbours_upto_on_board(w: int, h: int, x: int, y: int, k: int)
    ensures
        neighbours_upto(w, h, x, y, k).len() <= if k < 0 { 0 } else { k },
        forall|i: int| 0 <= i < neighbours_upto(w, h, x, y, k).len() ==> on(w, h, #[trigger] neighbours_upto(w, h, x, y, k)[i]),
    decreases k,
{
    if k > 0 {
        lemma_neighbours_upto_on_board(w, h, x, y, k - 1);
    }
}

/// Every neighbour lies on the board, and there are at most eight.
pub proof fn lemma_neighbours_on_board(w: int, h: int, x: int, y: int)
    ensures
        neighbours(w, h, x, y).len() <= 8,
        forall|i: int| 0 <= i < neighbours(w, h, x, y).len() ==> on(w, h, #[trigger] neighbours(w, h, x, y)[i]),
{
    reveal(neighbours);
    lemma_neighbours_upto_on_board(w, h, x, y, 8);
}

/// With a count of zero, none of the cells holds a mine.
pub proof fn lemma_count_zero(s: Seq<Tile>, h: int, cells: Seq<(usize, usize)>)
    requires
        count_mines(s, h, cells) == 0,
    ensures
        forall|i: int| 0 <= i < cells.len() ==> !is_mine_like(#[trigger] cell(s, h, cells[i])),
    decreases cells.len(),
{
    if cells.len() > 0 {
        lemma_count_zero(s, h, cells.drop_last());
        assert forall|i: int| 0 <= i < cells.len() implies !is_mine_like(#[trigger] cell(s, h, cells[i])) by {
            if i < cells.len() - 1 {
                assert(cells[i] == cells.drop_last()[i]);
            }
        }
    }
}

/// Grids that agree on which cells hold mines give the same counts.
pub proof fn lemma_count_same_mines(w: int, h: int, s1: Seq<Tile>, s2: Seq<Tile>, cells: Seq<(usize, usize)>)
    requires
        forall|i: int| 0 <= i < cells.len() ==> on(w, h, #[trigger] cells[i]),
        forall|c: (usize, usize)| on(w, h, c) ==> is_mine_like(#[trigger] cell(s1, h, c)) == is_mine_like(cell(s2, h, c)),
    ensures
        count_mines(s1, h, cells) == count_mines(s2, h, cells),
    decreases cells.len(),
{
    if cells.len() > 0 {
        assert(on(w, h, cells[cells.len() - 1]));
        lemma_count_same_mines(w, h, s1, s2, cells.drop_last());
    }
}

/// Cells and their positions in the grid agree one to one.
pub proof fn lemma_cell_update(w: int, h: int, s: Seq<Tile>, c: (usize, usize), t: Tile)
    requires
        s.len() == w * h,
        on(w, h, c),
    ensures
        forall|d: (usize, usize)| on(w, h, d) ==> #[trigger] cell(s.update(index(h, c.0 as int, c.1 as int), t), h, d)
            == if d == c { t } else { cell(s, h, d) },
{
    lemma_index_bounds(w, h, c.0 as int, c.1 as int);
    assert forall|d: (usize, usize)| on(w, h, d) implies #[trigger] cell(s.update(index(h, c.0 as int, c.1 as int), t), h, d)
        == if d == c { t } else { cell(s, h, d) } by {
        lemma_index_bounds(w, h, d.0 as int, d.1 as int);
        if index(h, c.0 as int, c.1 as int) == index(h, d.0 as int, d.1 as int) {
            lemma_index_injective(w, h, c.0 as int, c.1 as int, d.0 as int, d.1 as int);
        }
    }
}

/// After clearing, the cleared cells are `Safe` and the rest are unchanged.
pub proof fn lemma_clear_cells(w: int, h: int, s: Seq<Tile>, cells: Seq<(usize, usize)>)
    requires
        s.len() == w * h,
        forall|i: int| 0 <= i < cells.len() ==> on(w, h, #[trigger] cells[i]),
    ensures
        clear_cells(s, h, cells).len() == s.len(),
        forall|d: (usize, usize)| on(w, h, d) ==> #[trigger] cell(clear_cells(s, h, cells), h, d)
            == if cells.contains(d) { Tile::Safe } else { cell(s, h, d) },
    decreases cells.len(),
{
    if cells.len() > 0 {
        let prev = cells.drop_last();
        let c = cells.last();
        assert(on(w, h, cells[cells.len() - 1]));
        lemma_clear_cells(w, h, s, prev);
        lemma_index_bounds(w, h, c.0 as int, c.1 as int);
        lemma_cell_update(w, h, clear_cells(s, h, prev), c, Tile::Safe);
        assert forall|d: (usize, usize)| on(w, h, d) implies #[trigger] cell(clear_cells(s, h, cells), h, d)
            == if cells.contains(d) { Tile::Safe } else { cell(s, h, d) } by {
            if d != c {
                if prev.contains(d) {
                    let j = choose|j: int| 0 <= j < prev.len() && prev[j] == d;
                    assert(cells[j] == d);
                }
                if cells.contains(d) {
                    let j = choose|j: int| 0 <= j < cells.len() && cells[j] == d;
                    assert(prev[j] == d);
                }
            } else {
                assert(cells[cells.len() - 1] == d);
            }
        }
    }
}

/// The first-reveal clear leaves `c` and its neighbours `Safe` and the rest
/// of the grid as it was.
pub proof fn lemma_cleared(w: int, h: int, s: Seq<Tile>, c: (usize, usize))
    requires
        s.len() == w * h,
        on(w, h, c),
    ensures
        cleared(w, h, s, c).len() == s.len(),
        forall|d: (usize, usize)| on(w, h, d) ==> #[trigger] cell(cleared(w, h, s, c), h, d)
            == if d == c || neighbours(w, h, c.0 as int, c.1 as int).contains(d) { Tile::Safe } else { cell(s, h, d) },
{
    let s1 = s.update(index(h, c.0 as int, c.1 as int), Tile::Safe);
    lemma_index_bounds(w, h, c.0 as int, c.1 as int);
    lemma_cell_update(w, h, s, c, Tile::Safe);
    lemma_neighbours_on_board(w, h, c.0 as int, c.1 as int);
    lemma_clear_cells(w, h, s1, neighbours(w, h, c.0 as int, c.1 as int));
}

/// How many tiles of `s` are `Safe`.
pub open spec fn safe_count(s: Seq<Tile>) -> nat
    decreases s.len(),
{
    if s.len() == 0 {
        0
    } else {
        safe_count(s.drop_last()) + if s.last() is Safe { 1nat } else { 0nat }
    }
}

/// Opening one `Safe` tile lowers the count of `Safe` tiles by one.
pub proof fn lemma_safe_count_update(s: Seq<Tile>, i: int, t: Tile)
    requires
        0 <= i < s.len(),
        s[i] is Safe,
        !(t is Safe),
    ensures
        safe_count(s.update(i, t)) + 1 == safe_count(s),
    decreases s.len(),
{
    let u = s.update(i, t);
    if i == s.len() - 1 {
        assert(u.drop_last() =~= s.drop_last());
    } else {
        assert(u.drop_last() =~= s.drop_last().update(i, t));
        lemma_safe_count_update(s.drop_last(), i, t);
    }
}

/// The tile of `c` was `Safe` in `s0` and has since been opened in `s`.
pub open spec fn opened(s0: Seq<Tile>, s: Seq<Tile>, h: int, c: (usize, usize)) -> bool {
    cell(s0, h, c) is Safe && !(cell(s, h, c) is Safe)
}

/// Once the start is opened, and every opened cell without neighbouring
/// mines has no `Safe` neighbour left, every cell of a spreading path is
/// opened.
pub proof fn lemma_flood_complete(w: int, h: int, s0: Seq<Tile>, s: Seq<Tile>, start: (usize, usize), p: Seq<(usize, usize)>)
    requires
        is_path(w, h, s0, start, p),
        opened(s0, s, h, start),
        forall|d: (usize, usize), j: int|
            on(w, h, d) && opened(s0, s, h, d) && mine_count(w, h, s0, d) == 0
                && 0 <= j < neighbours(w, h, d.0 as int, d.1 as int).len()
                ==> !(cell(s, h, #[trigger] neighbours(w, h, d.0 as int, d.1 as int)[j]) is Safe),
    ensures
        forall|i: int| 0 <= i < p.len() ==> opened(s0, s, h, #[trigger] p[i]),
    decreases p.len(),
{
    if p.len() > 1 {
        let q = p.drop_last();
        assert(is_path(w, h, s0, start, q)) by {
            assert forall|i: int| 0 < i < q.len() implies {
                &&& cell(s0, h, #[trigger] q[i]) is Safe
                &&& mine_count(w, h, s0, q[i - 1]) == 0
                &&& neighbours(w, h, q[i - 1].0 as int, q[i - 1].1 as int).contains(q[i])
            } by {
                assert(q[i] == p[i] && q[i - 1] == p[i - 1]);
                assert(0 < i < p.len());
            }
            assert forall|i: int| 0 <= i < q.len() implies on(w, h, #[trigger] q[i]) by {
                assert(q[i] == p[i]);
            }
        }
        lemma_flood_complete(w, h, s0, s, start, q);
        let n = p.len() - 1;
        let d = p[n - 1];
        assert(q[n - 1] == d);
        assert(opened(s0, s, h, d));
        assert(on(w, h, p[n - 1]));
        assert(cell(s0, h, p[n]) is Safe);
        let nb = neighbours(w, h, d.0 as int, d.1 as int);
        assert(nb.contains(p[n]));
        let j = choose|j: int| 0 <= j < nb.len() && nb[j] == p[n];
        assert(!(cell(s, h, nb[j]) is Safe));
        assert forall|i: int| 0 <= i < p.len() implies opened(s0, s, h, #[trigger] p[i]) by {
            if i < n {
                assert(q[i] == p[i]);
            }
        }
    }
}

/// A spreading path extends by a `Safe` neighbour of its last cell when
/// that cell has no neighbouring mine.
pub proof fn lemma_path_extend(w: int, h: int, s0: Seq<Tile>, start: (usize, usize), p: Seq<(usize, usize)>, c: (usize, usize))
    requires
        is_path(w, h, s0, start, p),
        mine_count(w, h, s0, p.last()) == 0,
        neighbours(w, h, p.last().0 as int, p.last().1 as int).contains(c),
        on(w, h, c),
        cell(s0, h, c) is Safe,
    ensures
        is_path(w, h, s0, start, p.push(c)),
{
    let q = p.push(c);
    assert forall|k: int| 0 < k < q.len() implies {
        &&& cell(s0, h, #[trigger] q[k]) is Safe
        &&& mine_count(w, h, s0, q[k - 1]) == 0
        &&& neighbours(w, h, q[k - 1].0 as int, q[k - 1].1 as int).contains(q[k])
    } by {
        if k < q.len() - 1 {
            assert(q[k] == p[k] && q[k - 1] == p[k - 1]);
        }
    }
    assert forall|k: int| 0 <= k < q.len() implies on(w, h, #[trigger] q[k]) by {
        if k < q.len() - 1 {
            assert(q[k] == p[k]);
        }
    }
}

/// What holds between the steps of a flood fill from `start` on `s0`: `s`
/// is the grid so far, `stack` the cells still to visit, each with the
/// cell that added it in `parent`, and `paths` a spreading path to each
/// opened cell.
#[verifier::opaque]
pub open spec fn fill_inv(
    w: int,
    h: int,
    s0: Seq<Tile>,
    s: Seq<Tile>,
    start: (usize, usize),
    stack: Seq<(usize, usize)>,
    parent: Seq<(usize, usize)>,
    paths: Map<(usize, usize), Seq<(usize, usize)>>,
) -> bool {
    &&& s0.len() == w * h
    &&& s.len() == w * h
    &&& on(w, h, start)
    &&& cell(s0, h, start) is Safe
    &&& parent.len() == stack.len()
    &&& forall|c: (usize, usize)| on(w, h, c) && opened(s0, s, h, c) ==> {
        &&& #[trigger] cell(s, h, c) == Tile::Revealed(mine_count(w, h, s0, c) as u8)
        &&& paths.contains_key(c)
        &&& is_path(w, h, s0, start, paths[c])
        &&& paths[c].last() == c
    }
    &&& forall|c: (usize, usize)| on(w, h, c) && !opened(s0, s, h, c) ==> #[trigger] cell(s, h, c) == cell(s0, h, c)
    &&& forall|i: int| 0 <= i < stack.len() ==> {
        &&& on(w, h, #[trigger] stack[i])
        &&& (stack[i] == start || {
            &&& on(w, h, parent[i])
            &&& opened(s0, s, h, parent[i])
            &&& mine_count(w, h, s0, parent[i]) == 0
            &&& neighbours(w, h, parent[i].0 as int, parent[i].1 as int).contains(stack[i])
        })
    }
    &&& forall|d: (usize, usize), j: int|
        on(w, h, d) && opened(s0, s, h, d) && mine_count(w, h, s0, d) == 0
            && 0 <= j < neighbours(w, h, d.0 as int, d.1 as int).len()
            && cell(s, h, #[trigger] neighbours(w, h, d.0 as int, d.1 as int)[j]) is Safe
            ==> stack.contains(neighbours(w, h, d.0 as int, d.1 as int)[j])
    &&& cell(s, h, start) is Safe ==> stack.contains(start)
}

/// A fill starts with the start cell alone on the stack.
pub proof fn lemma_fill_init(w: int, h: int, s0: Seq<Tile>, start: (usize, usize))
    requires
        s0.len() == w * h,
        on(w, h, start),
        cell(s0, h, start) is Safe,
    ensures
        fill_inv(w, h, s0, s0, start, seq![start], seq![start], Map::empty()),
{
    reveal(fill_inv);
    assert(seq![start][0] == start);
}

/// What the fill may rely on for the cell on top of the stack.
pub proof fn lemma_fill_top(
    w: int,
    h: int,
    s0: Seq<Tile>,
    s: Seq<Tile>,
    start: (usize, usize),
    stack: Seq<(usize, usize)>,
    parent: Seq<(usize, usize)>,
    paths: Map<(usize, usize), Seq<(usize, usize)>>,
)
    requires
        fill_inv(w, h, s0, s, start, stack, parent, paths),
        stack.len() > 0,
    ensures
        s.len() == w * h,
        s0.len() == w * h,
        parent.len() == stack.len(),
        on(w, h, start),
        on(w, h, stack.last()),
        forall|d: (usize, usize)| on(w, h, d) ==> is_mine_like(#[trigger] cell(s, h, d)) == is_mine_like(cell(s0, h, d)),
        is_unopened(cell(s, h, stack.last())) ==> cell(s, h, stack.last()) is Safe && cell(s0, h, stack.last()) is Safe,
        stack.last() != start ==> {
            &&& paths.contains_key(parent.last())
            &&& is_path(w, h, s0, start, paths[parent.last()])
            &&& paths[parent.last()].last() == parent.last()
            &&& mine_count(w, h, s0, parent.last()) == 0
            &&& neighbours(w, h, parent.last().0 as int, parent.last().1 as int).contains(stack.last())
        },
{
    reveal(fill_inv);
    let c = stack.last();
    let k = stack.len() - 1;
    assert(on(w, h, stack[k]));
    if c != start {
        let pc = parent[k];
        let nb = neighbours(w, h, pc.0 as int, pc.1 as int);
        lemma_count_zero(s0, h, nb);
        let j = choose|j: int| 0 <= j < nb.len() && nb[j] == c;
        assert(!is_mine_like(cell(s0, h, nb[j])));
    }
    assert forall|d: (usize, usize)| on(w, h, d) implies is_mine_like(#[trigger] cell(s, h, d)) == is_mine_like(cell(s0, h, d)) by {}
}

/// Popping a cell that is not `Safe` leaves nothing to do.
pub proof fn lemma_fill_skip(
    w: int,
    h: int,
    s0: Seq<Tile>,
    s: Seq<Tile>,
    start: (usize, usize),
    stack: Seq<(usize, usize)>,
    parent: Seq<(usize, usize)>,
    paths: Map<(usize, usize), Seq<(usize, usize)>>,
)
    requires
        fill_inv(w, h, s0, s, start, stack, parent, paths),
        stack.len() > 0,
        !(cell(s, h, stack.last()) is Safe),
    ensures
        fill_inv(w, h, s0, s, start, stack.drop_last(), parent.drop_last(), paths),
{
    reveal(fill_inv);
    let c = stack.last();
    let rest = stack.drop_last();
    assert forall|m: (usize, usize)| stack.contains(m) && m != c implies rest.contains(m) by {
        let k = choose|k: int| 0 <= k < stack.len() && stack[k] == m;
        assert(rest[k] == m);
    }
    assert forall|i: int| 0 <= i < rest.len() implies rest[i] == stack[i] && parent.drop_last()[i] == parent[i] by {}
}

/// Opening the cell on top of the stack with its mine count `n`, and, when
/// `n` is zero, pushing its unopened neighbours, keeps the fill invariant.
#[verifier::rlimit(100)]
#[verifier::spinoff_prover]
pub proof fn lemma_fill_open(
    w: int,
    h: int,
    s0: Seq<Tile>,
    s: Seq<Tile>,
    start: (usize, usize),
    stack: Seq<(usize, usize)>,
    parent: Seq<(usize, usize)>,
    paths: Map<(usize, usize), Seq<(usize, usize)>>,
    n: u8,
    s1: Seq<Tile>,
    stack1: Seq<(usize, usize)>,
    parent1: Seq<(usize, usize)>,
)
    requires
        fill_inv(w, h, s0, s, start, stack, parent, paths),
        stack.len() > 0,
        cell(s, h, stack.last()) is Safe,
        cell(s0, h, stack.last()) is Safe,
        n as nat == mine_count(w, h, s0, stack.last()),
        s1 == s.update(index(h, stack.last().0 as int, stack.last().1 as int), Tile::Revealed(n)),
        stack.last() != start ==> {
            &&& paths.contains_key(parent.last())
            &&& is_path(w, h, s0, start, paths[parent.last()])
            &&& paths[parent.last()].last() == parent.last()
            &&& mine_count(w, h, s0, parent.last()) == 0
            &&& neighbours(w, h, parent.last().0 as int, parent.last().1 as int).contains(stack.last())
        },
        stack1.len() >= stack.len() - 1,
        parent1.len() == stack1.len(),
        stack1.subrange(0, stack.len() - 1) == stack.drop_last(),
        parent1.subrange(0, stack.len() - 1) == parent.drop_last(),
        forall|k: int| stack.len() - 1 <= k < stack1.len() ==> {
            &&& n == 0
            &&& neighbours(w, h, stack.last().0 as int, stack.last().1 as int).contains(#[trigger] stack1[k])
            &&& parent1[k] == stack.last()
        },
        n == 0 ==> forall|k: int| 0 <= k < neighbours(w, h, stack.last().0 as int, stack.last().1 as int).len()
            && cell(s1, h, #[trigger] neighbours(w, h, stack.last().0 as int, stack.last().1 as int)[k]) is Safe
            ==> stack1.contains(neighbours(w, h, stack.last().0 as int, stack.last().1 as int)[k]),
    ensures
        fill_inv(w, h, s0, s1, start, stack1, parent1, paths.insert(stack.last(),
            if stack.last() == start { seq![start] } else { paths[parent.last()].push(stack.last()) })),
{
    reveal(fill_inv);
    let c = stack.last();
    let pc = parent.last();
    let path = if c == start { seq![start] } else { paths[pc].push(c) };
    let paths1 = paths.insert(c, path);
    let m = stack.len() - 1;
    assert(on(w, h, stack[m]));
    lemma_index_bounds(w, h, c.0 as int, c.1 as int);
    lemma_cell_update(w, h, s, c, Tile::Revealed(n));
    if c != start {
        lemma_path_extend(w, h, s0, start, paths[pc], c);
    } else {
        assert(path[0] == start);
    }
    assert(is_path(w, h, s0, start, path));
    // cells still on the stack stay there
    assert forall|x: (usize, usize)| stack.contains(x) && x != c implies stack1.contains(x) by {
        let k = choose|k: int| 0 <= k < stack.len() && stack[k] == x;
        assert(k < m);
        assert(stack1.subrange(0, m)[k] == x);
    }
    assert forall|i: int| 0 <= i < stack1.len() implies {
        &&& on(w, h, #[trigger] stack1[i])
        &&& (stack1[i] == start || {
            &&& on(w, h, parent1[i])
            &&& opened(s0, s1, h, parent1[i])
            &&& mine_count(w, h, s0, parent1[i]) == 0
            &&& neighbours(w, h, parent1[i].0 as int, parent1[i].1 as int).contains(stack1[i])
        })
    } by {
        if i < m {
            assert(stack1.subrange(0, m)[i] == stack[i]);
            assert(parent1.subrange(0, m)[i] == parent[i]);
        } else {
            let nb = neighbours(w, h, c.0 as int, c.1 as int);
            lemma_neighbours_on_board(w, h, c.0 as int, c.1 as int);
            let j = choose|j: int| 0 <= j < nb.len() && nb[j] == stack1[i];
            assert(on(w, h, nb[j]));
        }
    }
    assert forall|d: (usize, usize), j: int|
        on(w, h, d) && opened(s0, s1, h, d) && mine_count(w, h, s0, d) == 0
            && 0 <= j < neighbours(w, h, d.0 as int, d.1 as int).len()
            && cell(s1, h, #[trigger] neighbours(w, h, d.0 as int, d.1 as int)[j]) is Safe
        implies stack1.contains(neighbours(w, h, d.0 as int, d.1 as int)[j]) by {
        let x = neighbours(w, h, d.0 as int, d.1 as int)[j];
        lemma_neighbours_on_board(w, h, d.0 as int, d.1 as int);
        assert(on(w, h, x));
        if d != c {
            assert(stack.contains(x));
        }
    }
    assert forall|x: (usize, usize)| on(w, h, x) && opened(s0, s1, h, x) implies {
        &&& #[trigger] cell(s1, h, x) == Tile::Revealed(mine_count(w, h, s0, x) as u8)
        &&& paths1.contains_key(x)
        &&& is_path(w, h, s0, start, paths1[x])
        &&& paths1[x].last() == x
    } by {
        if x != c {
            assert(opened(s0, s, h, x));
        }
    }
}

/// A fill whose stack has run empty has produced the flood result.
pub proof fn lemma_fill_done(
    w: int,
    h: int,
    s0: Seq<Tile>,
    s: Seq<Tile>,
    start: (usize, usize),
    parent: Seq<(usize, usize)>,
    paths: Map<(usize, usize), Seq<(usize, usize)>>,
)
    requires
        fill_inv(w, h, s0, s, start, seq![], parent, paths),
    ensures
        flood_result(w, h, s0, start, s),
{
    reveal(fill_inv);
    let e: Seq<(usize, usize)> = seq![];
    assert(!e.contains(start));
    assert forall|c: (usize, usize)| on(w, h, c) implies #[trigger] cell(s, h, c) == flood_cell(w, h, s0, start, c) by {
        if opened(s0, s, h, c) {
            assert(is_path(w, h, s0, start, paths[c]));
            assert(flood_reaches(w, h, s0, start, c));
        } else if flood_reaches(w, h, s0, start, c) {
            let p = choose|p: Seq<(usize, usize)>| #[trigger] is_path(w, h, s0, start, p) && p.last() == c;
            assert forall|d: (usize, usize), j: int|
                on(w, h, d) && opened(s0, s, h, d) && mine_count(w, h, s0, d) == 0
                    && 0 <= j < neighbours(w, h, d.0 as int, d.1 as int).len()
                    implies !(cell(s, h, #[trigger] neighbours(w, h, d.0 as int, d.1 as int)[j]) is Safe) by {
                let x = neighbours(w, h, d.0 as int, d.1 as int)[j];
                if cell(s, h, x) is Safe {
                    assert(e.contains(x));
                }
            }
            lemma_flood_complete(w, h, s0, s, start, p);
            assert(opened(s0, s, h, p[p.len() - 1]));
        }
    }
}

/// `s1` and `r` are the grid and outcome of a reveal of `c` on grid `s`,
/// where `first` says whether this is the first reveal of the game: the
/// first one clears `c` and its neighbours; then a mine explodes, a `Safe`
/// tile floods, and anything else is left alone.
pub open spec fn reveal_result(w: int, h: int, s: Seq<Tile>, first: bool, c: (usize, usize), s1: Seq<Tile>, r: RevealOutcome) -> bool {
    let s_ = if first { cleared(w, h, s, c) } else { s };
    match cell(s_, h, c) {
        Tile::Mine => r == RevealOutcome::Exploded && s1 == s_,
        Tile::Safe => r == RevealOutcome::Continue && flood_result(w, h, s_, c, s1),
        _ => r == RevealOutcome::Continue && s1 == s_,
    }
}

/// A flood fill never touches a tile that was already revealed.
pub proof fn lemma_flood_keeps_revealed(w: int, h: int, s0: Seq<Tile>, start: (usize, usize), s1: Seq<Tile>, c: (usize, usize))
    requires
        cell(s0, h, start) is Safe,
        flood_result(w, h, s0, start, s1),
        on(w, h, c),
        cell(s0, h, c) is Revealed,
    ensures
        cell(s1, h, c) == cell(s0, h, c),
{
    if flood_reaches(w, h, s0, start, c) {
        let p = choose|p: Seq<(usize, usize)>| #[trigger] is_path(w, h, s0, start, p) && p.last() == c;
        if p.len() > 1 {
            assert(cell(s0, h, p[p.len() - 1]) is Safe);
        }
    }
}

/// A flood fill turns no tile into a mine: each tile keeps its state or
/// becomes revealed.
pub proof fn lemma_flood_no_new_mines(w: int, h: int, s0: Seq<Tile>, start: (usize, usize), s1: Seq<Tile>, c: (usize, usize))
    requires
        flood_result(w, h, s0, start, s1),
        on(w, h, c),
    ensures
        cell(s1, h, c) == cell(s0, h, c) || cell(s1, h, c) is Revealed,
{
}

/// A flood fill reveals the cell it starts from.
pub proof fn lemma_flood_opens_start(w: int, h: int, s0: Seq<Tile>, start: (usize, usize), s1: Seq<Tile>)
    requires
        flood_result(w, h, s0, start, s1),
        on(w, h, start),
    ensures
        cell(s1, h, start) == Tile::Revealed(mine_count(w, h, s0, start) as u8),
{
    let p = seq![start];
    assert(p[0] == start);
    assert(is_path(w, h, s0, start, p));
}

} // verus!
