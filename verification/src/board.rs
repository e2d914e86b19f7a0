//! The set of live cells.
//!
//! The cells are kept in a hash set under one integer key each, which packs
//! the row into the upper and the column into the lower 64 bits.
use std::collections::HashSet;
use vstd::prelude::*;
use vstd::std_specs::iter::IteratorSpec;
use crate::point::{cells_of, Point};
use crate::rules::Cell;

verus! {

broadcast use vstd::std_specs::hash::group_hash_axioms;

/// Added to a coordinate to make it non-negative.
const SHIFT: i128 = 0x8000_0000_0000_0000;

/// The number of values that one shifted coordinate can take.
const SPAN: u128 = 0x1_0000_0000_0000_0000;

/// True when both coordinates of `c` fit in `isize`.
spec fn on_grid(c: Cell) -> bool {
    &&& isize::MIN <= c.0 <= isize::MAX
    &&& isize::MIN <= c.1 <= isize::MAX
}

/// The key under which the cell `c` is stored.
spec fn key_of(c: Cell) -> int {
    (c.0 + SHIFT) * SPAN + (c.1 + SHIFT)
}

/// The cell that is stored under the key `k`.
spec fn cell_at(k: int) -> Cell {
    (k / (SPAN as int) - SHIFT, k % (SPAN as int) - SHIFT)
}

/// The key of a cell of the grid fits in `u128` and leads back to the cell,
/// so distinct cells have distinct keys.
proof fn lemma_key_round_trip(c: Cell)
    requires
        on_grid(c),
    ensures
        0 <= key_of(c) <= u128::MAX,
        cell_at(key_of(c)) == c,
{
}

/// The live cells of a game.
pub struct Board {
    keys: HashSet<u128>,
}

impl View for Board {
    type V = Set<Cell>;

    closed spec fn view(&self) -> Set<Cell> {
        Set::new(|c: Cell| on_grid(c) && self.keys@.contains(key_of(c) as u128))
    }
}

fn pack(p: &Point) -> (k: u128)
    ensures
        k == key_of(p@),
{
    let hi: u128 = (p.x() as i128 + SHIFT) as u128;
    let lo: u128 = (p.y() as i128 + SHIFT) as u128;
    hi * SPAN + lo
}

fn unpack(k: u128) -> (p: Point)
    requires
        on_grid(cell_at(k as int)),
    ensures
        p@ == cell_at(k as int),
{
    let x: isize = ((k / SPAN) as i128 - SHIFT) as isize;
    let y: isize = ((k % SPAN) as i128 - SHIFT) as isize;
    Point::new(x, y)
}

impl Board {
    /// Every stored key is the key of a cell of the grid.
    pub closed spec fn wf(&self) -> bool {
        forall|k: u128| #[trigger]
            self.keys@.contains(k) ==> on_grid(cell_at(k as int)) && key_of(cell_at(k as int)) == k
    }

    /// A board without live cells.
    pub fn new() -> (b: Board)
        ensures
            b.wf(),
            b@ == Set::<Cell>::empty(),
    {
        let b = Board { keys: HashSet::new() };
        assert(b@ =~= Set::<Cell>::empty());
        b
    }

    /// A board holds finitely many cells, as many as it stores keys.
    proof fn lemma_counts_agree(&self)
        requires
            self.wf(),
        ensures
            self.keys@.finite(),
            self@.finite(),
            self@.len() == self.keys@.len(),
    {
        let keys = self.keys@;
        let stored = self.keys.iter().remaining().unref();
        vstd::seq_lib::seq_to_set_is_finite(stored);
        let f = |k: u128| cell_at(k as int);
        assert forall|c: Cell| keys.map(f).contains(c) <==> self@.contains(c) by {
            if self@.contains(c) {
                lemma_key_round_trip(c);
                assert(keys.contains(key_of(c) as u128) && f(key_of(c) as u128) == c);
            }
        }
        assert(keys.map(f) =~= self@);
        vstd::set_lib::lemma_map_size(keys, self@, f);
    }

    /// The number of live cells.
    pub fn len(&self) -> (n: usize)
        requires
            self.wf(),
        ensures
            self@.finite(),
            n == self@.len(),
    {
        proof {
            self.lemma_counts_agree();
        }
        self.keys.len()
    }

    /// The live cells, each once, in no particular order.
    pub fn live_cells(&self) -> (out: Vec<Point>)
        requires
            self.wf(),
        ensures
            cells_of(out@).to_set() == self@,
            cells_of(out@).no_duplicates(),
    {
        let mut out: Vec<Point> = Vec::new();
        let ghost keys: Seq<u128> = self.keys.iter().remaining().unref();
        for k in it: self.keys.iter()
            invariant
                self.wf(),
                it.seq().unref() == keys,
                keys.to_set() == self.keys@,
                keys.no_duplicates(),
                out@.len() == it.index(),
                forall|i: int| 0 <= i < out@.len() ==> (#[trigger] out@[i])@ == cell_at(keys[i] as int),
        {
            assert(keys[it.index()] == *k);
            assert(keys.contains(*k));
            assert(keys.to_set().contains(*k));
            out.push(unpack(*k));
        }
        proof {
            let cells = cells_of(out@);
            assert(cells.len() == keys.len());
            assert forall|i: int| 0 <= i < keys.len() implies #[trigger] key_of(cells[i]) == keys[i]
                && self.keys@.contains(keys[i]) by {
                assert(keys.contains(keys[i]));
                assert(keys.to_set().contains(keys[i]));
            }
            assert forall|c: Cell| cells.to_set().contains(c) <==> self@.contains(c) by {
                if cells.to_set().contains(c) {
                    let i = choose|i: int| 0 <= i < cells.len() && cells[i] == c;
                    assert(key_of(cells[i]) == keys[i]);
                }
                if self@.contains(c) {
                    lemma_key_round_trip(c);
                    assert(keys.to_set().contains(key_of(c) as u128));
                    assert(keys.contains(key_of(c) as u128));
                    let i = choose|i: int| 0 <= i < keys.len() && keys[i] == key_of(c) as u128;
                    assert(cells[i] == c);
                }
            }
            assert(cells.to_set() =~= self@);
        }
        out
    }

    /// Says whether the cell at `p` is alive.
    pub fn contains(&self, p: &Point) -> (alive: bool)
        ensures
            alive == self@.contains(p@),
    {
        proof {
            p.lemma_view_fits();
        }
        let k: u128 = pack(p);
        self.keys.contains(&k)
    }

    /// Makes the cell at `p` alive. Returns whether it was dead before.
    pub fn insert(&mut self, p: Point) -> (fresh: bool)
        requires
            old(self).wf(),
        ensures
            final(self).wf(),
            final(self)@ == old(self)@.insert(p@),
            fresh == !old(self)@.contains(p@),
    {
        proof {
            p.lemma_view_fits();
            lemma_key_round_trip(p@);
        }
        let k: u128 = pack(&p);
        let fresh = self.keys.insert(k);
        proof {
            assert forall|c: Cell| on_grid(c) && key_of(c) == key_of(p@) implies c == p@ by {
                lemma_key_round_trip(c);
            }
            assert(self@ =~= old(self)@.insert(p@));
        }
        fresh
    }

    /// Makes the cell at `p` dead. Returns whether it was alive before.
    pub fn remove(&mut self, p: &Point) -> (was_alive: bool)
        requires
            old(self).wf(),
        ensures
            final(self).wf(),
            final(self)@ == old(self)@.remove(p@),
            was_alive == old(self)@.contains(p@),
    {
        proof {
            p.lemma_view_fits();
            lemma_key_round_trip(p@);
        }
        let k: u128 = pack(p);
        let was_alive = self.keys.remove(&k);
        proof {
            assert forall|c: Cell| on_grid(c) && key_of(c) == key_of(p@) implies c == p@ by {
                lemma_key_round_trip(c);
            }
            assert(self@ =~= old(self)@.remove(p@));
        }
        was_alive
    }
}

} // verus!
