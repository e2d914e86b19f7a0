//! The rules of the game over mathematical values: a cell is a pair of
//! integers (row, column), a board is the set of the cells that are alive.
//!
//! The next generation is described twice. [`next_board`] says which cells
//! are alive after a step. [`step_over`] follows the procedure: evaluate a
//! sequence of candidate cells against the board, collect the deaths and the
//! births, apply them. [`lemma_step_over_covering`] shows that the two agree
//! whenever the candidates hold the neighbourhood of every live cell.
use vstd::prelude::*;

verus! {

/// A grid position: row first, column second.
pub type Cell = (int, int);

/// What one evaluation of a cell decides for the coming generation.
#[derive(PartialEq, Eq, Structural, Clone, Copy, Debug)]
pub enum Verdict {
    /// The cell is dead and comes alive.
    Birth,
    /// The cell is taken off the board, whether it is on it or not.
    Death,
    /// The cell stays as it is.
    Keep,
}

/// True when `c` lies at least `margin` steps inside the range of `isize`,
/// in all four directions.
pub open spec fn clear_of_edge(c: Cell, margin: int) -> bool {
    &&& isize::MIN + margin <= c.0 <= isize::MAX - margin
    &&& isize::MIN + margin <= c.1 <= isize::MAX - margin
}

/// The 3x3 block centred on `c`, row by row from the top left. The centre
/// itself is the fifth entry.
pub open spec fn block(c: Cell) -> Seq<Cell> {
    seq![
        (c.0 - 1, c.1 - 1),
        (c.0 - 1, c.1),
        (c.0 - 1, c.1 + 1),
        (c.0, c.1 - 1),
        (c.0, c.1),
        (c.0, c.1 + 1),
        (c.0 + 1, c.1 - 1),
        (c.0 + 1, c.1),
        (c.0 + 1, c.1 + 1),
    ]
}

/// True when `d` is in the 3x3 block centred on `c`.
pub open spec fn adjacent(c: Cell, d: Cell) -> bool {
    &&& c.0 - 1 <= d.0 <= c.0 + 1
    &&& c.1 - 1 <= d.1 <= c.1 + 1
}

/// The test for being alive on `board`.
pub open spec fn alive_on(board: Set<Cell>) -> spec_fn(Cell) -> bool {
    |c: Cell| board.contains(c)
}

/// The number of entries of `cells` that are alive on `board`. An entry that
/// occurs several times is counted each time.
pub open spec fn live_count(board: Set<Cell>, cells: Seq<Cell>) -> nat {
    cells.filter(alive_on(board)).len()
}

/// The number of live cells in the block around `c`, `c` itself included.
pub open spec fn crowd(board: Set<Cell>, c: Cell) -> nat {
    live_count(board, block(c))
}

/// What evaluating `c` against `board` decides.
pub open spec fn verdict_of(board: Set<Cell>, c: Cell) -> Verdict {
    let total = crowd(board, c);
    let is_live = board.contains(c);
    if total == 3 && !is_live {
        Verdict::Birth
    } else if total < 3 || (total > 4 && is_live) {
        Verdict::Death
    } else {
        Verdict::Keep
    }
}

/// The board of the next generation: a cell is alive on it when its block
/// holds three live cells, or four of which it is one.
pub open spec fn next_board(board: Set<Cell>) -> Set<Cell> {
    Set::new(|c: Cell| crowd(board, c) == 3 || (crowd(board, c) == 4 && board.contains(c)))
}

/// The cells to evaluate for the live cells `live`: the block of each, one
/// block after the other. A cell occurs once for each live cell it is
/// adjacent to.
pub open spec fn candidates(live: Seq<Cell>) -> Seq<Cell>
    decreases live.len(),
{
    if live.len() == 0 {
        Seq::empty()
    } else {
        candidates(live.drop_last()) + block(live.last())
    }
}

/// The test for getting the verdict `v` against `board`.
pub open spec fn judged(board: Set<Cell>, v: Verdict) -> spec_fn(Cell) -> bool {
    |c: Cell| verdict_of(board, c) == v
}

/// The board that results when the cells of `evaluated` are evaluated
/// against `board` one by one, every death is applied and then every birth.
pub open spec fn step_over(board: Set<Cell>, evaluated: Seq<Cell>) -> Set<Cell> {
    let deaths = evaluated.filter(judged(board, Verdict::Death));
    let births = evaluated.filter(judged(board, Verdict::Birth));
    board.difference(deaths.to_set()).union(births.to_set())
}

/// True when `evaluated` holds the whole block of every live cell.
pub open spec fn covers(board: Set<Cell>, evaluated: Seq<Cell>) -> bool {
    forall|c: Cell, d: Cell| #[trigger]
        board.contains(c) && #[trigger] adjacent(c, d) ==> evaluated.contains(d)
}

/// A prefix that is made one entry longer gains that entry as a set.
pub proof fn lemma_prefix_grows(cells: Seq<Cell>, i: int)
    requires
        0 <= i < cells.len(),
    ensures
        cells.take(i + 1).to_set() == cells.take(i).to_set().insert(cells[i]),
{
    assert(cells.take(i + 1) =~= cells.take(i).push(cells[i]));
    cells.take(i).lemma_push_to_set_commute(cells[i]);
}

/// The entries of a block are the cells adjacent to its centre.
pub proof fn lemma_block_adjacent(c: Cell, d: Cell)
    ensures
        block(c).contains(d) <==> adjacent(c, d),
{
    let b = block(c);
    if adjacent(c, d) {
        let i = (d.0 - c.0 + 1) * 3 + (d.1 - c.1 + 1);
        assert(b[i] == d);
    }
}

/// No more entries are alive than there are entries.
pub proof fn lemma_live_count_bound(board: Set<Cell>, cells: Seq<Cell>)
    ensures
        live_count(board, cells) <= cells.len(),
{
    cells.lemma_filter_len(alive_on(board));
}

/// The count over a prefix made one entry longer grows by one when that
/// entry is alive, and not at all when it is dead.
pub proof fn lemma_live_count_next(board: Set<Cell>, cells: Seq<Cell>, i: int)
    requires
        0 <= i < cells.len(),
    ensures
        live_count(board, cells.take(i + 1)) == live_count(board, cells.take(i)) + if board.contains(
            cells[i],
        ) {
            1nat
        } else {
            0nat
        },
{
    assert(cells.take(i + 1) =~= cells.take(i).push(cells[i]));
    cells.take(i).lemma_filter_push(cells[i], alive_on(board));
}

/// Counting is additive: the count over two sequences joined is the sum of
/// the counts over each.
pub proof fn lemma_live_count_concat(board: Set<Cell>, a: Seq<Cell>, b: Seq<Cell>)
    ensures
        live_count(board, a + b) == live_count(board, a) + live_count(board, b),
{
    Seq::filter_distributes_over_add(a, b, alive_on(board));
}

/// A live cell counts each time it is met: a sequence that holds `n` times
/// the same live cell and nothing else counts `n`.
pub proof fn lemma_live_count_repeats(board: Set<Cell>, c: Cell, n: nat)
    requires
        board.contains(c),
    ensures
        live_count(board, Seq::new(n, |i: int| c)) == n,
    decreases n,
{
    let all = Seq::new(n, |i: int| c);
    if n == 0 {
        lemma_live_count_bound(board, all);
    } else {
        let fewer = Seq::new((n - 1) as nat, |i: int| c);
        assert(all =~= fewer.push(c));
        fewer.lemma_filter_push(c, alive_on(board));
        lemma_live_count_repeats(board, c, (n - 1) as nat);
    }
}

/// A count above zero has a live entry behind it.
pub proof fn lemma_live_count_witness(board: Set<Cell>, cells: Seq<Cell>) -> (i: int)
    requires
        live_count(board, cells) > 0,
    ensures
        0 <= i < cells.len(),
        board.contains(cells[i]),
{
    let found = cells.filter(alive_on(board));
    cells.lemma_filter_pred(alive_on(board), 0);
    assert(found.contains(found[0]));
    cells.lemma_filter_contains_rev(alive_on(board), found[0]);
    choose|i: int| 0 <= i < cells.len() && cells[i] == found[0]
}

/// One more live cell adds its block at the end of the candidates.
pub proof fn lemma_candidates_next(live: Seq<Cell>, i: int)
    requires
        0 <= i < live.len(),
    ensures
        candidates(live.take(i + 1)) == candidates(live.take(i)) + block(live[i]),
{
    assert(live.take(i + 1).drop_last() =~= live.take(i));
}

/// Every candidate is adjacent to one of the live cells.
pub proof fn lemma_candidates_near(live: Seq<Cell>, k: int) -> (j: int)
    requires
        0 <= k < candidates(live).len(),
    ensures
        0 <= j < live.len(),
        adjacent(live[j], candidates(live)[k]),
    decreases live.len(),
{
    let earlier = candidates(live.drop_last());
    if k < earlier.len() {
        lemma_candidates_near(live.drop_last(), k)
    } else {
        let d = block(live.last())[k - earlier.len()];
        lemma_block_adjacent(live.last(), d);
        live.len() - 1
    }
}

/// The candidates hold every cell adjacent to one of the live cells.
pub proof fn lemma_candidates_far(live: Seq<Cell>, j: int, d: Cell)
    requires
        0 <= j < live.len(),
        adjacent(live[j], d),
    ensures
        candidates(live).contains(d),
    decreases live.len(),
{
    let earlier = candidates(live.drop_last());
    if j < live.len() - 1 {
        lemma_candidates_far(live.drop_last(), j, d);
        let k = choose|k: int| 0 <= k < earlier.len() && earlier[k] == d;
        assert(candidates(live)[k] == d);
    } else {
        lemma_block_adjacent(live.last(), d);
        let m = choose|m: int| 0 <= m < 9 && block(live.last())[m] == d;
        assert(candidates(live)[earlier.len() + m] == d);
    }
}

/// The candidates for all live cells of a board hold the block of each.
pub proof fn lemma_candidates_cover(live: Seq<Cell>)
    ensures
        covers(live.to_set(), candidates(live)),
{
    assert forall|c: Cell, d: Cell| #[trigger]
        live.to_set().contains(c) && #[trigger] adjacent(c, d) implies candidates(live).contains(
        d,
    ) by {
        let j = choose|j: int| 0 <= j < live.len() && live[j] == c;
        lemma_candidates_far(live, j, d);
    }
}

/// The cells that got the verdict `v` among a prefix made one entry longer:
/// that entry is added when `v` is its verdict.
pub proof fn lemma_judged_next(board: Set<Cell>, evaluated: Seq<Cell>, v: Verdict, i: int)
    requires
        0 <= i < evaluated.len(),
    ensures
        evaluated.take(i + 1).filter(judged(board, v)) == if verdict_of(board, evaluated[i]) == v {
            evaluated.take(i).filter(judged(board, v)).push(evaluated[i])
        } else {
            evaluated.take(i).filter(judged(board, v))
        },
{
    assert(evaluated.take(i + 1) =~= evaluated.take(i).push(evaluated[i]));
    evaluated.take(i).lemma_filter_push(evaluated[i], judged(board, v));
}

/// What a step makes of one cell: a cell that was evaluated follows its
/// verdict, however often it was evaluated, and any other cell stays as it
/// is.
pub proof fn lemma_step_over_cell(board: Set<Cell>, evaluated: Seq<Cell>, c: Cell)
    ensures
        step_over(board, evaluated).contains(c) <==> if evaluated.contains(c) {
            match verdict_of(board, c) {
                Verdict::Birth => true,
                Verdict::Death => false,
                Verdict::Keep => board.contains(c),
            }
        } else {
            board.contains(c)
        },
{
    let deaths = evaluated.filter(judged(board, Verdict::Death));
    let births = evaluated.filter(judged(board, Verdict::Birth));
    assert(deaths.to_set().contains(c) == deaths.contains(c));
    assert(births.to_set().contains(c) == births.contains(c));
    if deaths.contains(c) {
        let k = choose|k: int| 0 <= k < deaths.len() && deaths[k] == c;
        evaluated.lemma_filter_pred(judged(board, Verdict::Death), k);
        evaluated.lemma_filter_contains_rev(judged(board, Verdict::Death), c);
    }
    if births.contains(c) {
        let k = choose|k: int| 0 <= k < births.len() && births[k] == c;
        evaluated.lemma_filter_pred(judged(board, Verdict::Birth), k);
        evaluated.lemma_filter_contains_rev(judged(board, Verdict::Birth), c);
    }
    if evaluated.contains(c) {
        let k = choose|k: int| 0 <= k < evaluated.len() && evaluated[k] == c;
        if verdict_of(board, c) == Verdict::Death {
            evaluated.lemma_filter_contains(judged(board, Verdict::Death), k);
        }
        if verdict_of(board, c) == Verdict::Birth {
            evaluated.lemma_filter_contains(judged(board, Verdict::Birth), k);
        }
    }
}

/// Evaluating every cell that has a live cell in its block gives the next
/// board, however often and in whatever order the cells are evaluated.
pub proof fn lemma_step_over_covering(board: Set<Cell>, evaluated: Seq<Cell>)
    requires
        covers(board, evaluated),
    ensures
        step_over(board, evaluated) == next_board(board),
{
    assert forall|c: Cell| step_over(board, evaluated).contains(c) <==> next_board(board).contains(
        c,
    ) by {
        lemma_step_over_cell(board, evaluated, c);
        if !evaluated.contains(c) {
            if board.contains(c) {
                assert(adjacent(c, c));
            }
            if crowd(board, c) > 0 {
                let i = lemma_live_count_witness(board, block(c));
                let d = block(c)[i];
                lemma_block_adjacent(c, d);
                assert(adjacent(d, c));
            }
        }
    }
    assert(step_over(board, evaluated) =~= next_board(board));
}

/// The outcome of a step depends on which cells are evaluated, not on how
/// often each is, nor on their order: a cell evaluated again gets the same
/// verdict again.
pub proof fn lemma_step_over_same_cells(board: Set<Cell>, a: Seq<Cell>, b: Seq<Cell>)
    requires
        a.to_set() == b.to_set(),
    ensures
        step_over(board, a) == step_over(board, b),
{
    assert forall|c: Cell| step_over(board, a).contains(c) <==> step_over(board, b).contains(c) by {
        assert(a.to_set().contains(c) == a.contains(c));
        assert(b.to_set().contains(c) == b.contains(c));
        lemma_step_over_cell(board, a, c);
        lemma_step_over_cell(board, b, c);
    }
    assert(step_over(board, a) =~= step_over(board, b));
}

/// Nothing is born on an empty board.
pub proof fn lemma_empty_board_stays_empty()
    ensures
        next_board(Set::<Cell>::empty()) == Set::<Cell>::empty(),
{
    let board = Set::<Cell>::empty();
    assert forall|c: Cell| !next_board(board).contains(c) by {
        if crowd(board, c) > 0 {
            let i = lemma_live_count_witness(board, block(c));
        }
    }
    assert(next_board(board) =~= board);
}

} // verus!
