//! The simulation: a board of live cells and the number of generations run.
use vstd::prelude::*;
use crate::board::Board;
use crate::point::{cells_of, Point};
use crate::rules::{
    candidates, clear_of_edge, judged, lemma_candidates_cover, lemma_candidates_near,
    lemma_candidates_next, lemma_judged_next, lemma_live_count_bound, lemma_live_count_next,
    lemma_prefix_grows, lemma_step_over_covering, live_count, next_board, verdict_of, Cell,
    Verdict,
};

verus! {

/// A game in progress: the cells that are alive, and how many generations
/// have been run since the game was set up.
pub struct Game {
    pub board: Board,
    pub generation: isize,
}

impl Game {
    /// The board is well formed and the generation counter is not negative.
    pub open spec fn wf(&self) -> bool {
        &&& self.board.wf()
        &&& self.generation >= 0
    }

    /// Every live cell lies at least `margin` steps inside the range of `isize`.
    pub open spec fn all_clear_of_edge(&self, margin: int) -> bool {
        forall|c: Cell| #[trigger] self.board@.contains(c) ==> clear_of_edge(c, margin)
    }

    /// Sets up a game with the given cells alive. A cell given more than once
    /// is alive once.
    pub fn new(points: Vec<Point>) -> (g: Game)
        ensures
            g.wf(),
            g.board@ == cells_of(points@).to_set(),
            g.generation == 0,
    {
        let mut board = Board::new();
        let ghost cells = cells_of(points@);
        for i in 0..points.len()
            invariant
                cells == cells_of(points@),
                board.wf(),
                board@ == cells.take(i as int).to_set(),
        {
            board.insert(points[i]);
            proof {
                lemma_prefix_grows(cells, i as int);
            }
        }
        assert(cells.take(points.len() as int) =~= cells);
        Game { board, generation: 0 }
    }

    /// Says whether the cell at `point` is alive.
    pub fn is_alive(&self, point: &Point) -> (alive: bool)
        ensures
            alive == self.board@.contains(point@),
    {
        self.board.contains(point)
    }

    /// Sums the amount of live cells in a given area.
    ///
    /// For calculating alive or dead cells.
    pub fn sum_live(&self, points: Vec<Point>) -> (total: isize)
        requires
            points@.len() <= isize::MAX,
        ensures
            total == live_count(self.board@, cells_of(points@)),
            0 <= total <= points@.len(),
    {
        let mut total: isize = 0;
        let ghost cells = cells_of(points@);
        proof {
            lemma_live_count_bound(self.board@, cells.take(0));
        }
        for i in 0..points.len()
            invariant
                cells == cells_of(points@),
                points@.len() <= isize::MAX,
                total == live_count(self.board@, cells.take(i as int)),
                total <= i,
        {
            proof {
                lemma_live_count_next(self.board@, cells, i as int);
            }
            if self.board.contains(&points[i]) {
                total += 1;
            }
        }
        assert(cells.take(points.len() as int) =~= cells);
        total
    }

    /// Evaluates one cell against the board as it stands.
    pub fn verdict(&self, cell: &Point) -> (v: Verdict)
        requires
            clear_of_edge(cell@, 1),
        ensures
            v == verdict_of(self.board@, cell@),
    {
        let total = self.sum_live(cell.neighbors());
        let is_live = self.board.contains(cell);
        if total == 3 && !is_live {
            Verdict::Birth
        } else if total < 3 || total > 4 && is_live {
            Verdict::Death
        } else {
            Verdict::Keep
        }
    }

    /// Says whether another generation can be run: no live cell is within
    /// two steps of the edge of the range of `isize`, and the generation
    /// counter has not reached its end.
    pub fn can_advance(&self) -> (ok: bool)
        requires
            self.wf(),
        ensures
            ok == (self.all_clear_of_edge(2) && self.generation < isize::MAX),
    {
        if self.generation == isize::MAX {
            return false;
        }
        let live = self.board.live_cells();
        for i in 0..live.len()
            invariant
                cells_of(live@).to_set() == self.board@,
                forall|k: int| 0 <= k < i ==> clear_of_edge(#[trigger] live@[k]@, 2),
        {
            let x = live[i].x();
            let y = live[i].y();
            if x < isize::MIN + 2 || x > isize::MAX - 2 || y < isize::MIN + 2 || y > isize::MAX - 2 {
                proof {
                    assert(cells_of(live@)[i as int] == live@[i as int]@);
                    assert(cells_of(live@).to_set().contains(live@[i as int]@));
                }
                return false;
            }
        }
        proof {
            assert forall|c: Cell| #[trigger] self.board@.contains(c) implies clear_of_edge(c, 2) by {
                assert(cells_of(live@).to_set().contains(c));
                let k = choose|k: int| 0 <= k < live@.len() && cells_of(live@)[k] == c;
                assert(live@[k]@ == c);
            }
        }
        true
    }

    /// Runs one generation of the Game of Life.
    pub fn run_generation(&mut self)
        requires
            old(self).wf(),
            old(self).all_clear_of_edge(2),
            old(self).generation < isize::MAX,
        ensures
            final(self).wf(),
            final(self).board@ == next_board(old(self).board@),
            final(self).generation == old(self).generation + 1,
    {
        let ghost before = self.board@;

        // All cells to check this generation for births/deaths.
        let live = self.board.live_cells();
        let ghost alive = cells_of(live@);
        let mut checks: Vec<Point> = Vec::new();
        assert(cells_of(checks@) =~= candidates(alive.take(0)));
        for i in 0..live.len()
            invariant
                alive == cells_of(live@),
                alive.to_set() == before,
                forall|c: Cell| #[trigger] before.contains(c) ==> clear_of_edge(c, 2),
                cells_of(checks@) == candidates(alive.take(i as int)),
        {
            proof {
                assert(alive.to_set().contains(alive[i as int]));
                lemma_candidates_next(alive, i as int);
            }
            let ghost earlier = checks@;
            let mut around = live[i].neighbors();
            let ghost nine = around@;
            checks.append(&mut around);
            assert(cells_of(checks@) =~= cells_of(earlier) + cells_of(nine));
        }
        let ghost evaluated = cells_of(checks@);
        proof {
            assert(alive.take(live@.len() as int) =~= alive);
            assert forall|k: int| 0 <= k < checks@.len() implies clear_of_edge(
                #[trigger] checks@[k]@,
                1,
            ) by {
                let j = lemma_candidates_near(alive, k);
                assert(alive.to_set().contains(alive[j]));
                assert(evaluated[k] == checks@[k]@);
            }
        }

        // Check all cells.
        let mut deaths: Vec<Point> = Vec::new();
        let mut births: Vec<Point> = Vec::new();
        proof {
            evaluated.take(0).lemma_filter_len(judged(before, Verdict::Death));
            evaluated.take(0).lemma_filter_len(judged(before, Verdict::Birth));
            assert(cells_of(deaths@) =~= evaluated.take(0).filter(judged(before, Verdict::Death)));
            assert(cells_of(births@) =~= evaluated.take(0).filter(judged(before, Verdict::Birth)));
        }
        for i in 0..checks.len()
            invariant
                self.board@ == before,
                evaluated == cells_of(checks@),
                forall|k: int| 0 <= k < checks@.len() ==> clear_of_edge(#[trigger] checks@[k]@, 1),
                cells_of(deaths@) == evaluated.take(i as int).filter(judged(before, Verdict::Death)),
                cells_of(births@) == evaluated.take(i as int).filter(judged(before, Verdict::Birth)),
        {
            let cell = checks[i];
            let ghost reaped = deaths@;
            let ghost sown = births@;
            proof {
                lemma_judged_next(before, evaluated, Verdict::Death, i as int);
                lemma_judged_next(before, evaluated, Verdict::Birth, i as int);
            }
            match self.verdict(&cell) {
                Verdict::Birth => {
                    births.push(cell);
                    assert(cells_of(births@) =~= cells_of(sown).push(cell@));
                },
                Verdict::Death => {
                    deaths.push(cell);
                    assert(cells_of(deaths@) =~= cells_of(reaped).push(cell@));
                },
                Verdict::Keep => {},
            }
        }
        assert(evaluated.take(checks@.len() as int) =~= evaluated);

        // Apply game state changes.
        let ghost dead = cells_of(deaths@);
        let ghost born = cells_of(births@);
        for i in 0..deaths.len()
            invariant
                dead == cells_of(deaths@),
                self.board.wf(),
                self.generation == old(self).generation,
                self.board@ == before.difference(dead.take(i as int).to_set()),
        {
            self.board.remove(&deaths[i]);
            proof {
                lemma_prefix_grows(dead, i as int);
                assert(self.board@ =~= before.difference(dead.take(i + 1).to_set()));
            }
        }
        proof {
            assert(dead.take(deaths@.len() as int) =~= dead);
            assert(self.board@ =~= before.difference(dead.to_set()).union(born.take(0).to_set()));
        }
        for i in 0..births.len()
            invariant
                born == cells_of(births@),
                self.board.wf(),
                self.generation == old(self).generation,
                self.board@ == before.difference(dead.to_set()).union(
                    born.take(i as int).to_set(),
                ),
        {
            self.board.insert(births[i]);
            proof {
                lemma_prefix_grows(born, i as int);
                assert(self.board@ =~= before.difference(dead.to_set()).union(
                    born.take(i + 1).to_set(),
                ));
            }
        }

        proof {
            assert(born.take(births@.len() as int) =~= born);
            lemma_candidates_cover(alive);
            lemma_step_over_covering(before, evaluated);
        }

        self.generation += 1;
    }
}

} // verus!
