//! A position on the grid and its 3x3 neighbourhood.
use vstd::prelude::*;
use crate::rules::{block, clear_of_edge, Cell};

verus! {

/// A position on the grid. Two points are equal when both coordinates are.
#[derive(PartialEq, Eq, Structural, Hash, Debug, Clone, Copy)]
pub struct Point {
    x: isize,
    y: isize,
}

/// The cells that a sequence of points stands for, in the same order.
pub open spec fn cells_of(points: Seq<Point>) -> Seq<Cell> {
    Seq::new(points.len(), |i: int| points[i]@)
}

impl View for Point {
    type V = Cell;

    closed spec fn view(&self) -> Cell {
        (self.x as int, self.y as int)
    }
}

impl Point {
    /// Both coordinates of a point fit in `isize`.
    pub proof fn lemma_view_fits(self)
        ensures
            isize::MIN <= self@.0 <= isize::MAX,
            isize::MIN <= self@.1 <= isize::MAX,
    {
    }

    /// A point is determined by the cell it stands for.
    pub proof fn lemma_view_injective(self, other: Point)
        requires
            self@ == other@,
        ensures
            self == other,
    {
    }

    /// The point in row `x` and column `y`. Every pair of integers is a point.
    pub fn new(x: isize, y: isize) -> (p: Point)
        ensures
            p@ == (x as int, y as int),
    {
        Point { x, y }
    }

    /// The row coordinate.
    pub fn x(&self) -> (x: isize)
        ensures
            x == self@.0,
    {
        self.x
    }

    /// The column coordinate.
    pub fn y(&self) -> (y: isize)
        ensures
            y == self@.1,
    {
        self.y
    }

    /// Returns all neighboring points/cells.
    ///
    /// This **includes** the current cell.
    pub fn neighbors(&self) -> (out: Vec<Point>)
        requires
            clear_of_edge(self@, 1),
        ensures
            cells_of(out@) == block(self@),
            out@.len() == 9,
            out@[4] == *self,
    {
        let mut out: Vec<Point> = Vec::new();
        let mut i: isize = 0;
        while i < 3
            invariant
                0 <= i <= 3,
                clear_of_edge(self@, 1),
                out@.len() == 3 * i,
                forall|k: int| 0 <= k < out@.len() ==> (#[trigger] out@[k])@ == block(self@)[k],
            decreases 3 - i,
        {
            let mut j: isize = 0;
            while j < 3
                invariant
                    0 <= i < 3,
                    0 <= j <= 3,
                    clear_of_edge(self@, 1),
                    out@.len() == 3 * i + j,
                    forall|k: int| 0 <= k < out@.len() ==> (#[trigger] out@[k])@ == block(self@)[k],
                decreases 3 - j,
            {
                out.push(Point::new(self.x - 1 + i, self.y - 1 + j));
                j += 1;
            }
            i += 1;
        }
        assert(cells_of(out@) =~= block(self@));
        out
    }
}

} // verus!
