//! The edit graph: the two input sequences and the graph-local queries the
//! path search needs (diagonal matches and snake extension).

use vstd::prelude::*;

use crate::element::DiffGraphable;

verus! {

/// A position in the edit graph. `i` indexes into the target sequence
/// (`0..=target.len()`), `j` into the original sequence (`0..=original.len()`).
/// `(0, 0)` is the start corner.
#[derive(PartialEq, Eq, Structural, Copy, Clone, Debug)]
pub struct DiffGraphPoint {
    pub i: usize,
    pub j: usize,
}

impl DiffGraphPoint {
    /// A copy of this point shifted by `(di, dj)`.
    pub fn delta_clone(&self, di: usize, dj: usize) -> (r: Self)
        requires
            self.i + di <= usize::MAX,
            self.j + dj <= usize::MAX,
        ensures
            r.i == self.i + di,
            r.j == self.j + dj,
    {
        Self { i: self.i + di, j: self.j + dj }
    }
}

impl From<(usize, usize)> for DiffGraphPoint {
    fn from(tuple: (usize, usize)) -> (r: Self) {
        Self { i: tuple.0, j: tuple.1 }
    }
}

impl vstd::std_specs::convert::FromSpecImpl<(usize, usize)> for DiffGraphPoint {
    open spec fn obeys_from_spec() -> bool {
        true
    }

    open spec fn from_spec(tuple: (usize, usize)) -> Self {
        Self { i: tuple.0, j: tuple.1 }
    }
}

/// True when the edit graph of `orig` and `target` has a diagonal edge out of
/// `(i, j)`: both coordinates are in range and the elements there are equal.
pub open spec fn is_match<E>(orig: Seq<E>, target: Seq<E>, i: int, j: int) -> bool {
    &&& 0 <= i < target.len()
    &&& 0 <= j < orig.len()
    &&& target[i] == orig[j]
}

/// The edit graph over one pair of sequences: a pure query surface, no
/// mutable state.
pub struct DiffGraph<T: DiffGraphable> {
    pub orig_lines: Vec<T>,
    pub target_lines: Vec<T>,
}

impl<T: DiffGraphable> DiffGraph<T> {
    /// The original sequence, as abstract element values.
    pub open spec fn origs(&self) -> Seq<T::V> {
        self.orig_lines.deep_view()
    }

    /// The target sequence, as abstract element values.
    pub open spec fn targets(&self) -> Seq<T::V> {
        self.target_lines.deep_view()
    }

    pub fn new(orig_lines: Vec<T>, target_lines: Vec<T>) -> (g: DiffGraph<T>)
        ensures
            g.origs() == orig_lines.deep_view(),
            g.targets() == target_lines.deep_view(),
    {
        DiffGraph { orig_lines, target_lines }
    }

    pub fn original_length(&self) -> (n: usize)
        ensures
            n == self.origs().len(),
    {
        self.orig_lines.len()
    }

    pub fn target_length(&self) -> (n: usize)
        ensures
            n == self.targets().len(),
    {
        self.target_lines.len()
    }

    /// Whether the graph lets `point` advance diagonally: the indexed elements
    /// of both sequences exist and are equal. Out-of-range points safely
    /// answer `false`.
    pub fn skippable(&self, point: DiffGraphPoint) -> (r: bool)
        ensures
            r == is_match(self.origs(), self.targets(), point.i as int, point.j as int),
    {
        if point.i < self.target_lines.len() && point.j < self.orig_lines.len() {
            self.target_lines[point.i].eq_elem(&self.orig_lines[point.j])
        } else {
            false
        }
    }

    /// Extends a snake (maximal run of diagonal steps) from `from`: the
    /// result lies on the same diagonal, every step crossed is a match, and
    /// no further diagonal step is possible.
    pub fn snake_descent(&self, from: &DiffGraphPoint) -> (r: DiffGraphPoint)
        ensures
            r.i >= from.i,
            r.i - from.i == r.j - from.j,
            forall|t: int|
                0 <= t < r.i - from.i ==> #[trigger] is_match(
                    self.origs(),
                    self.targets(),
                    from.i + t,
                    from.j + t,
                ),
            !is_match(self.origs(), self.targets(), r.i as int, r.j as int),
    {
        let height = self.target_lines.len();
        let width = self.orig_lines.len();
        let mut ret: DiffGraphPoint = *from;
        while self.skippable(ret)
            invariant
                height == self.targets().len(),
                width == self.origs().len(),
                ret.i >= from.i,
                ret.i - from.i == ret.j - from.j,
                forall|t: int|
                    0 <= t < ret.i - from.i ==> #[trigger] is_match(
                        self.origs(),
                        self.targets(),
                        from.i + t,
                        from.j + t,
                    ),
            decreases self.targets().len() - ret.i,
        {
            ret = ret.delta_clone(1, 1);
        }
        ret
    }
}

} // verus!
