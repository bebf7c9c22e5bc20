//! The shortest-edit-path solver: a breadth-expanding search over edit
//! distance rounds `d = 0, 1, 2, …` that tracks, per diagonal of the edit
//! graph, the furthest reach and the candidate path that attained it.

use vstd::prelude::*;

use crate::edit_path::{
    delete_step, diagonal_step, edit_distance_from, insert_step,
    lemma_corner_path_steps_at_least_distance, lemma_dist_along_matches, lemma_nondiag_push,
    lemma_nondiag_take, lemma_path_push, lemma_suffix_steps_lower, nondiagonal_count,
    reaches_corner, spec_edit_distance, valid_path, valid_step,
};
use crate::element::DiffGraphable;
use crate::error::DiffError;
use crate::graph::{is_match, DiffGraph, DiffGraphPoint};
use crate::script::{commands_from, script_of_path, step_commands, DiffCommand};

verus! {

/// How far a snake (run of matches) slides from `(i, j)`.
pub open spec fn slide_len<E>(orig: Seq<E>, target: Seq<E>, i: int, j: int) -> int
    decreases target.len() - i,
{
    if is_match(orig, target, i, j) {
        1 + slide_len(orig, target, i + 1, j + 1)
    } else {
        0
    }
}

/// What a slide crosses: matches all the way, and none at its end.
proof fn lemma_slide_spec<E>(orig: Seq<E>, target: Seq<E>, i: int, j: int)
    ensures
        slide_len(orig, target, i, j) >= 0,
        forall|s: int|
            0 <= s < slide_len(orig, target, i, j) ==> #[trigger] is_match(
                orig,
                target,
                i + s,
                j + s,
            ),
        !is_match(
            orig,
            target,
            i + slide_len(orig, target, i, j),
            j + slide_len(orig, target, i, j),
        ),
    decreases target.len() - i,
{
    if is_match(orig, target, i, j) {
        lemma_slide_spec(orig, target, i + 1, j + 1);
        let sl = slide_len(orig, target, i, j);
        assert forall|s: int| 0 <= s < sl implies #[trigger] is_match(orig, target, i + s, j + s) by {
            if s > 0 {
                assert(is_match(orig, target, (i + 1) + (s - 1), (j + 1) + (s - 1)));
            }
        }
    }
}

/// The settled point an optimal edit path has reached after `r` unit
/// moves: each move follows the distance recurrence (deleting when that is
/// strictly cheaper, else inserting) and is followed by its full slide.
pub open spec fn milestone<E>(orig: Seq<E>, target: Seq<E>, r: int) -> (int, int)
    decreases r,
{
    if r <= 0 {
        let s = slide_len(orig, target, 0, 0);
        (s, s)
    } else {
        let (mi, mj) = milestone(orig, target, r - 1);
        if mi >= target.len() || (mj < orig.len() && edit_distance_from(orig, target, mi, mj + 1)
            < edit_distance_from(orig, target, mi + 1, mj)) {
            let s = slide_len(orig, target, mi, mj + 1);
            (mi + s, mj + 1 + s)
        } else {
            let s = slide_len(orig, target, mi + 1, mj);
            (mi + 1 + s, mj + s)
        }
    }
}

/// The milestone's row.
pub open spec fn milestone_row<E>(orig: Seq<E>, target: Seq<E>, r: int) -> int {
    milestone(orig, target, r).0
}

/// The milestone's column.
pub open spec fn milestone_col<E>(orig: Seq<E>, target: Seq<E>, r: int) -> int {
    milestone(orig, target, r).1
}

/// The (shifted) diagonal the milestone sits on.
pub open spec fn milestone_diag<E>(orig: Seq<E>, target: Seq<E>, max: int, r: int) -> int {
    max + milestone_col(orig, target, r) - milestone_row(orig, target, r)
}

/// The edit distance never exceeds the summed remaining lengths, and is
/// never negative.
proof fn lemma_dist_range<E>(orig: Seq<E>, target: Seq<E>, i: int, j: int)
    requires
        0 <= i <= target.len(),
        0 <= j <= orig.len(),
    ensures
        0 <= edit_distance_from(orig, target, i, j) <= (target.len() - i) + (orig.len() - j),
    decreases (target.len() - i) + (orig.len() - j),
{
    if i < target.len() && j < orig.len() {
        lemma_dist_range(orig, target, i + 1, j + 1);
        lemma_dist_range(orig, target, i + 1, j);
        lemma_dist_range(orig, target, i, j + 1);
    }
}

/// Each milestone stays inside the edit graph, is snake-maximal, lies
/// within `r` of the middle diagonal, and has spent exactly `r` of the
/// total edit distance.
proof fn lemma_milestone_props<E>(orig: Seq<E>, target: Seq<E>, r: int)
    requires
        0 <= r <= spec_edit_distance(orig, target),
    ensures
        0 <= milestone_row(orig, target, r) <= target.len(),
        0 <= milestone_col(orig, target, r) <= orig.len(),
        edit_distance_from(orig, target, milestone_row(orig, target, r), milestone_col(orig, target, r))
            == spec_edit_distance(orig, target) - r,
        !is_match(orig, target, milestone_row(orig, target, r), milestone_col(orig, target, r)),
        milestone_col(orig, target, r) - milestone_row(orig, target, r) <= r,
        milestone_row(orig, target, r) - milestone_col(orig, target, r) <= r,
        (milestone_col(orig, target, r) - milestone_row(orig, target, r) - r) % 2 == 0,
    decreases r,
{
    if r <= 0 {
        lemma_slide_spec(orig, target, 0, 0);
        let s = slide_len(orig, target, 0, 0);
        if s > 0 {
            assert(is_match(orig, target, 0 + (s - 1), 0 + (s - 1)));
        }
        lemma_dist_along_matches(orig, target, 0, 0, s);
    } else {
        lemma_milestone_props(orig, target, r - 1);
        let mi = milestone_row(orig, target, r - 1);
        let mj = milestone_col(orig, target, r - 1);
        let remaining = spec_edit_distance(orig, target) - (r - 1);
        assert(remaining >= 1);
        if mi >= target.len() || (mj < orig.len() && edit_distance_from(orig, target, mi, mj + 1)
            < edit_distance_from(orig, target, mi + 1, mj)) {
            // the delete move
            assert(mj < orig.len()) by {
                if mi >= target.len() && mj >= orig.len() {
                    assert(edit_distance_from(orig, target, mi, mj) == 0);
                }
            }
            assert(edit_distance_from(orig, target, mi, mj + 1) == remaining - 1);
            lemma_slide_spec(orig, target, mi, mj + 1);
            let s = slide_len(orig, target, mi, mj + 1);
            if s > 0 {
                assert(is_match(orig, target, mi + (s - 1), (mj + 1) + (s - 1)));
            }
            lemma_dist_along_matches(orig, target, mi, mj + 1, s);
        } else {
            // the insert move
            assert(mi < target.len()) by {
                if mi >= target.len() && mj >= orig.len() {
                    assert(edit_distance_from(orig, target, mi, mj) == 0);
                }
            }
            assert(edit_distance_from(orig, target, mi + 1, mj) == remaining - 1);
            lemma_slide_spec(orig, target, mi + 1, mj);
            let s = slide_len(orig, target, mi + 1, mj);
            if s > 0 {
                assert(is_match(orig, target, (mi + 1) + (s - 1), mj + (s - 1)));
            }
            lemma_dist_along_matches(orig, target, mi + 1, mj, s);
        }
    }
}

/// The last milestone is exactly the far corner.
proof fn lemma_milestone_corner<E>(orig: Seq<E>, target: Seq<E>)
    ensures
        milestone_row(orig, target, spec_edit_distance(orig, target)) == target.len(),
        milestone_col(orig, target, spec_edit_distance(orig, target)) == orig.len(),
{
    lemma_dist_range(orig, target, 0, 0);
    let d0 = spec_edit_distance(orig, target);
    lemma_milestone_props(orig, target, d0);
    let mi = milestone_row(orig, target, d0);
    let mj = milestone_col(orig, target, d0);
    assert(edit_distance_from(orig, target, mi, mj) == 0);
    if mi < target.len() && mj < orig.len() {
        lemma_dist_range(orig, target, mi + 1, mj);
        lemma_dist_range(orig, target, mi, mj + 1);
        assert(false);
    } else if mi < target.len() || mj < orig.len() {
        assert(false);
    }
}

/// Where the milestone's diagonal lies relative to the round's band, and
/// its parity within it.
proof fn lemma_milestone_band<E>(orig: Seq<E>, target: Seq<E>, max: int, d: int)
    requires
        0 <= d <= spec_edit_distance(orig, target),
    ensures
        max - d <= milestone_diag(orig, target, max, d) <= max + d,
        (milestone_diag(orig, target, max, d) - (max - d)) % 2 == 0,
        d >= 1 ==> ((milestone_diag(orig, target, max, d - 1) - (max - d)) % 2 == 1),
        d >= 1 ==> (max - d < milestone_diag(orig, target, max, d - 1) < max + d),
{
    lemma_milestone_props(orig, target, d);
    if d >= 1 {
        lemma_milestone_props(orig, target, d - 1);
    }
}

/// The column of the milestone's unit move, before its slide.
pub open spec fn milestone_step_col<E>(orig: Seq<E>, target: Seq<E>, r: int) -> int {
    if r <= 0 {
        0
    } else {
        let (mi, mj) = milestone(orig, target, r - 1);
        if mi >= target.len() || (mj < orig.len() && edit_distance_from(orig, target, mi, mj + 1)
            < edit_distance_from(orig, target, mi + 1, mj)) {
            mj + 1
        } else {
            mj
        }
    }
}

/// At the milestone's diagonal, whichever neighbour the search extends,
/// the chosen column reaches the milestone's unit-move column.
proof fn lemma_step_reaches_milestone<E>(
    o: Seq<E>,
    t: Seq<E>,
    max: int,
    d: int,
    k: int,
    left: int,
    right: int,
    j: int,
    took_first: bool,
)
    requires
        1 <= d <= spec_edit_distance(o, t),
        k == milestone_diag(o, t, max, d),
        milestone_diag(o, t, max, d - 1) == k - 1 ==> left >= milestone_col(o, t, d - 1),
        milestone_diag(o, t, max, d - 1) == k + 1 ==> right >= milestone_col(o, t, d - 1),
        took_first ==> (k == max - d || (k != max + d && left < right)),
        took_first ==> j == right,
        !took_first ==> (k != max - d && (k == max + d || left >= right)),
        !took_first ==> j == left + 1,
    ensures
        j >= milestone_step_col(o, t, d),
{
    lemma_milestone_band(o, t, max, d);
    lemma_milestone_props(o, t, d - 1);
    lemma_milestone_props(o, t, d);
    let pi = milestone_row(o, t, d - 1);
    let pj = milestone_col(o, t, d - 1);
    if pi >= t.len() || (pj < o.len() && edit_distance_from(o, t, pi, pj + 1)
        < edit_distance_from(o, t, pi + 1, pj)) {
        assert(milestone_diag(o, t, max, d - 1) == k - 1);
        assert(k != max - d);
        if took_first {
            assert(left < right);
        }
        assert(j >= pj + 1);
    } else {
        assert(milestone_diag(o, t, max, d - 1) == k + 1);
        assert(k != max + d);
        if !took_first {
            assert(left >= right);
        }
        assert(j >= pj);
    }
}

/// A snake-maximal point on the milestone's diagonal that has reached the
/// milestone's unit-move column has absorbed its slide too: it reaches the
/// milestone's own column.
proof fn lemma_entry_reaches_milestone<E>(
    orig: Seq<E>,
    target: Seq<E>,
    max: int,
    d: int,
    k: int,
    descent: DiffGraphPoint,
)
    requires
        0 <= d <= spec_edit_distance(orig, target),
        k == milestone_diag(orig, target, max, d),
        descent.j >= milestone_step_col(orig, target, d),
        descent.i + k == max + descent.j,
        !is_match(orig, target, descent.i as int, descent.j as int),
    ensures
        descent.j >= milestone_col(orig, target, d),
{
    lemma_milestone_props(orig, target, d);
    if d == 0 {
        lemma_slide_spec(orig, target, 0, 0);
        let sl = slide_len(orig, target, 0, 0);
        if descent.j < sl {
            assert(is_match(orig, target, 0 + descent.j as int, 0 + descent.j as int));
            assert(descent.i == descent.j);
            assert(false);
        }
        assert(milestone_col(orig, target, 0) == sl);
    } else {
        lemma_milestone_props(orig, target, d - 1);
        let pi = milestone_row(orig, target, d - 1);
        let pj = milestone_col(orig, target, d - 1);
        if pi >= target.len() || (pj < orig.len() && edit_distance_from(orig, target, pi, pj + 1)
            < edit_distance_from(orig, target, pi + 1, pj)) {
            lemma_slide_spec(orig, target, pi, pj + 1);
            let sl = slide_len(orig, target, pi, pj + 1);
            assert(pi == max + pj + 1 - k);
            if descent.j < pj + 1 + sl {
                let off = descent.j - (pj + 1);
                assert(0 <= off < sl);
                assert(is_match(orig, target, pi + off, (pj + 1) + off));
                assert(descent.i == pi + off);
                assert(false);
            }
            assert(milestone_col(orig, target, d) == pj + 1 + sl);
        } else {
            lemma_slide_spec(orig, target, pi + 1, pj);
            let sl = slide_len(orig, target, pi + 1, pj);
            assert(pi + 1 == max + pj - k);
            if descent.j < pj + sl {
                let off = descent.j - pj;
                assert(0 <= off < sl);
                assert(is_match(orig, target, (pi + 1) + off, pj + off));
                assert(descent.i == pi + 1 + off);
                assert(false);
            }
            assert(milestone_col(orig, target, d) == pj + sl);
        }
    }
}

/// A corner-reaching path found within the edit-distance round bound is
/// minimal: no valid corner-reaching path has fewer non-diagonal moves.
proof fn lemma_returned_path_minimal<E>(o: Seq<E>, t: Seq<E>, path: Seq<DiffGraphPoint>, d: int)
    requires
        valid_path(o, t, path),
        reaches_corner(o, t, path),
        nondiagonal_count(path, 0) <= d,
        d <= spec_edit_distance(o, t),
    ensures
        nondiagonal_count(path, 0) == spec_edit_distance(o, t),
        forall|q: Seq<DiffGraphPoint>|
            valid_path(o, t, q) && reaches_corner(o, t, q) ==> nondiagonal_count(path, 0)
                <= #[trigger] nondiagonal_count(q, 0),
{
    lemma_corner_path_steps_at_least_distance(o, t, path, 0);
    assert forall|q: Seq<DiffGraphPoint>|
        valid_path(o, t, q) && reaches_corner(o, t, q) implies nondiagonal_count(path, 0)
        <= #[trigger] nondiagonal_count(q, 0) by {
        lemma_corner_path_steps_at_least_distance(o, t, q, 0);
    }
}

/// A stored per-diagonal search entry is sound: its candidate path is a
/// valid path from the origin ending on diagonal `k` at column `vj`, it is
/// snake-maximal, it has not yet dominated the far corner, and its column
/// lies within what `rounds` search rounds can reach.
pub open spec fn sound_entry<E>(
    orig: Seq<E>,
    target: Seq<E>,
    max: int,
    k: int,
    vj: usize,
    pk: Seq<DiffGraphPoint>,
    rounds: int,
) -> bool {
    &&& valid_path(orig, target, pk)
    &&& pk.last().j == vj
    &&& vj + max >= k
    &&& pk.last().i == vj + max - k
    &&& !(pk.last().i >= target.len() && pk.last().j >= orig.len())
    &&& !is_match(orig, target, pk.last().i as int, pk.last().j as int)
    &&& vj <= orig.len() + rounds
    &&& nondiagonal_count(pk, 0) < rounds
}

/// A fresh owned copy of a path of points.
fn copy_path(v: &Vec<DiffGraphPoint>) -> (r: Vec<DiffGraphPoint>)
    ensures
        r@ == v@,
{
    let mut r: Vec<DiffGraphPoint> = Vec::new();
    let mut x: usize = 0;
    while x < v.len()
        invariant
            x <= v@.len(),
            r@ == v@.take(x as int),
        decreases v@.len() - x,
    {
        r.push(v[x]);
        proof {
            assert(v@.take(x as int).push(v@[x as int]) =~= v@.take(x as int + 1));
        }
        x = x + 1;
    }
    proof {
        assert(v@.take(v@.len() as int) =~= v@);
    }
    r
}

/// Truncates a valid path at its first touch of the far corner's row or
/// column and walks the border from there: a defensive completion for a
/// search result whose final point overstepped the corner. The result is a
/// valid path that ends exactly on the corner.
fn complete_to_corner<E>(
    path: Vec<DiffGraphPoint>,
    orig_len: usize,
    target_len: usize,
    Ghost(orig): Ghost<Seq<E>>,
    Ghost(target): Ghost<Seq<E>>,
) -> (r: Vec<DiffGraphPoint>)
    requires
        valid_path(orig, target, path@),
        orig_len == orig.len(),
        target_len == target.len(),
        path@.last().i >= target_len,
        path@.last().j >= orig_len,
        !(path@.last().i == target_len && path@.last().j == orig_len),
    ensures
        valid_path(orig, target, r@),
        reaches_corner(orig, target, r@),
        nondiagonal_count(r@, 0) < nondiagonal_count(path@, 0),
{
    let ghost whole = path@;
    let len = path.len();
    let mut m: usize = 0;
    while path[m].i < target_len && path[m].j < orig_len
        invariant
            whole == path@,
            len == whole.len(),
            m < len,
            valid_path(orig, target, whole),
            orig_len == orig.len(),
            target_len == target.len(),
            whole.last().i >= target_len,
            whole.last().j >= orig_len,
            forall|x: int|
                0 <= x < m ==> ((#[trigger] whole[x]).i < target_len && whole[x].j < orig_len),
        decreases len - m,
    {
        proof {
            assert(whole[m as int] != whole.last());
        }
        m = m + 1;
    }
    let p = path[m];
    proof {
        if m > 0 {
            let mm = m as int - 1;
            let prev = whole[mm];
            assert(prev.i < target_len && prev.j < orig_len);
            assert(valid_step(orig, target, whole[mm], whole[mm + 1]));
            if diagonal_step(prev, p) {
                assert(is_match(
                    orig,
                    target,
                    prev.i + (p.i - prev.i - 1),
                    prev.j + (p.i - prev.i - 1),
                ));
            }
        }
        assert(p.i <= target_len && p.j <= orig_len);
    }
    let mut result = path;
    result.truncate(m + 1);
    proof {
        assert(result@ == whole.subrange(0, m as int + 1));
        assert(whole.take(m as int + 1) =~= whole.subrange(0, m as int + 1));
        lemma_nondiag_take(whole, 0, m as int);
        lemma_suffix_steps_lower(orig, target, whole, m as int);
        assert(result@[0] == whole[0]);
        assert(result@.last() == p);
        assert forall|n: int| 0 <= n < result@.len() - 1 implies #[trigger] valid_step(
            orig,
            target,
            result@[n],
            result@[n + 1],
        ) by {
            assert(valid_step(orig, target, whole[n], whole[n + 1]));
            assert(result@[n] == whole[n] && result@[n + 1] == whole[n + 1]);
        }
        assert(valid_path(orig, target, result@));
    }
    let ghost trunc_count = nondiagonal_count(result@, 0);
    let mut ci = p.i;
    let mut cj = p.j;
    while cj < orig_len
        invariant
            valid_path(orig, target, result@),
            result@.last() == (DiffGraphPoint { i: ci, j: cj }),
            ci == p.i,
            p.j <= cj <= orig_len,
            orig_len == orig.len(),
            target_len == target.len(),
            nondiagonal_count(result@, 0) == trunc_count + (cj - p.j),
        decreases orig_len - cj,
    {
        let np = DiffGraphPoint { i: ci, j: cj + 1 };
        proof {
            assert(delete_step(result@.last(), np));
            assert(valid_step(orig, target, result@.last(), np));
            lemma_path_push(orig, target, result@, np);
            lemma_nondiag_push(result@, np, 0);
        }
        result.push(np);
        cj = cj + 1;
    }
    while ci < target_len
        invariant
            valid_path(orig, target, result@),
            result@.last() == (DiffGraphPoint { i: ci, j: cj }),
            p.i <= ci <= target_len,
            cj == orig.len(),
            orig_len == orig.len(),
            target_len == target.len(),
            nondiagonal_count(result@, 0) == trunc_count + (orig_len - p.j) + (ci - p.i),
        decreases target_len - ci,
    {
        let np = DiffGraphPoint { i: ci + 1, j: cj };
        proof {
            assert(insert_step(result@.last(), np));
            assert(valid_step(orig, target, result@.last(), np));
            lemma_path_push(orig, target, result@, np);
            lemma_nondiag_push(result@, np, 0);
        }
        result.push(np);
        ci = ci + 1;
    }
    proof {
        assert(nondiagonal_count(result@, 0) == trunc_count + (orig_len - p.j) + (target_len
            - p.i));
        assert(nondiagonal_count(whole, m as int) >= (whole.last().i - p.i) + (whole.last().j
            - p.j));
        assert((whole.last().i - p.i) + (whole.last().j - p.j) >= (target_len - p.i) + (orig_len
            - p.j) + 1);
    }
    result
}

/// The search state over one edit graph.
pub struct DiffGraphSolver<'a, T: DiffGraphable> {
    pub diff_graph: &'a DiffGraph<T>,
}

impl<'a, T: DiffGraphable> From<&'a DiffGraph<T>> for DiffGraphSolver<'a, T> {
    fn from(diff_graph: &'a DiffGraph<T>) -> (s: Self) {
        Self { diff_graph }
    }
}

impl<'a, T: DiffGraphable> vstd::std_specs::convert::FromSpecImpl<&'a DiffGraph<T>> for DiffGraphSolver<'a, T> {
    open spec fn obeys_from_spec() -> bool {
        true
    }

    open spec fn from_spec(diff_graph: &'a DiffGraph<T>) -> Self {
        Self { diff_graph }
    }
}

impl<'a, T: DiffGraphable> DiffGraphSolver<'a, T> {
    /// The original sequence, as abstract element values.
    pub open spec fn origs(&self) -> Seq<T::V> {
        self.diff_graph.origs()
    }

    /// The target sequence, as abstract element values.
    pub open spec fn targets(&self) -> Seq<T::V> {
        self.diff_graph.targets()
    }

    /// Searches rounds of growing edit distance for the first path that
    /// reaches the far corner of the edit graph, preferring (on ties) to
    /// extend the higher neighbouring diagonal. The search always
    /// succeeds, and the found path is a valid edit path from the origin
    /// to exactly the corner that is minimal: it spends exactly the
    /// insert/delete edit distance in non-diagonal moves, and no valid
    /// corner-reaching path spends less. Termination within the distance
    /// is proved by tracking the milestones of one optimal edit path;
    /// overstepping the corner is proved impossible, since completing an
    /// overstepping path along the corner's border (the defensive branch
    /// below) would beat the edit distance. When the two sequences are
    /// equal the search succeeds in the very first round and the path
    /// carries no insert or delete.
    #[verifier::rlimit(100)]
    pub fn find_min_edit_path(&self) -> (r: Result<Vec<DiffGraphPoint>, DiffError>)
        requires
            self.origs().len() + self.targets().len() <= usize::MAX / 4 - 2,
        ensures
            r is Ok,
            (r matches Ok(path) ==> valid_path(self.origs(), self.targets(), path@)
                && reaches_corner(self.origs(), self.targets(), path@)),
            (r matches Ok(path) ==> nondiagonal_count(path@, 0) == spec_edit_distance(
                self.origs(),
                self.targets(),
            )),
            (r matches Ok(path) ==> (forall|q: Seq<DiffGraphPoint>|
                valid_path(self.origs(), self.targets(), q) && reaches_corner(
                    self.origs(),
                    self.targets(),
                    q,
                ) ==> nondiagonal_count(path@, 0) <= #[trigger] nondiagonal_count(q, 0))),
            (self.origs() == self.targets() ==> (r matches Ok(path) && script_of_path(
                self.targets(),
                path@,
            ).len() == 0)),
    {
        let ghost o = self.origs();
        let ghost t = self.targets();
        let orig_len = self.diff_graph.original_length();
        let target_len = self.diff_graph.target_length();
        let max = target_len + orig_len + 2;
        let width = 2 * max + 1;

        let mut v_table: Vec<usize> = Vec::new();
        let mut p_table: Vec<Vec<DiffGraphPoint>> = Vec::new();
        let mut w: usize = 0;
        while w < width
            invariant
                o == self.origs(),
                t == self.targets(),
                orig_len == o.len(),
                target_len == t.len(),
                max == target_len + orig_len + 2,
                width == 2 * max + 1,
                o.len() + t.len() <= usize::MAX / 4 - 2,
                w <= width,
                v_table@.len() == w,
                p_table@.len() == w,
                forall|x: int| 0 <= x < w ==> v_table@[x] == 0,
                forall|x: int| 0 <= x < w ==> (#[trigger] p_table@[x])@.len() == 0,
            decreases width - w,
        {
            v_table.push(0);
            p_table.push(Vec::<DiffGraphPoint>::new());
            w = w + 1;
        }

        proof {
            lemma_dist_range(o, t, 0, 0);
        }
        let mut d: usize = 0;
        while d < max
            invariant
                o == self.origs(),
                t == self.targets(),
                orig_len == o.len(),
                target_len == t.len(),
                max == target_len + orig_len + 2,
                width == 2 * max + 1,
                o.len() + t.len() <= usize::MAX / 4 - 2,
                d <= max,
                d <= spec_edit_distance(o, t),
                v_table@.len() == width,
                p_table@.len() == width,
                d >= 1 ==> o != t,
                d >= 1 ==> v_table@[milestone_diag(o, t, max as int, d as int - 1)]
                    >= milestone_col(o, t, d as int - 1),
                forall|x: int|
                    #![trigger v_table@[x]]
                    #![trigger p_table@[x]]
                    max - d < x < max + d ==> sound_entry(
                        o,
                        t,
                        max as int,
                        x,
                        v_table@[x],
                        p_table@[x]@,
                        d as int,
                    ),
                forall|x: int|
                    #![trigger v_table@[x]]
                    #![trigger p_table@[x]]
                    0 <= x < width && !(max - d < x < max + d) ==> (v_table@[x] == 0
                        && p_table@[x]@.len() == 0),
            decreases max - d,
        {
            proof {
                lemma_milestone_band(o, t, max as int, d as int);
            }
            let mut k: usize = max - d;
            while k <= max + d
                invariant
                    o == self.origs(),
                    t == self.targets(),
                    orig_len == o.len(),
                    target_len == t.len(),
                    max == target_len + orig_len + 2,
                    width == 2 * max + 1,
                    o.len() + t.len() <= usize::MAX / 4 - 2,
                    d < max,
                    d <= spec_edit_distance(o, t),
                    max - d <= k,
                    k <= max + d + 2,
                    (k - (max - d)) % 2 == 0,
                    v_table@.len() == width,
                    p_table@.len() == width,
                    d >= 1 ==> o != t,
                    d >= 1 ==> v_table@[milestone_diag(o, t, max as int, d as int - 1)]
                        >= milestone_col(o, t, d as int - 1),
                    k > milestone_diag(o, t, max as int, d as int) ==> v_table@[
                        milestone_diag(o, t, max as int, d as int)
                    ] >= milestone_col(o, t, d as int),
                    forall|x: int|
                        #![trigger v_table@[x]]
                        #![trigger p_table@[x]]
                        max - d <= x < k && (x - (max - d)) % 2 == 0 ==> sound_entry(
                            o,
                            t,
                            max as int,
                            x,
                            v_table@[x],
                            p_table@[x]@,
                            d as int + 1,
                        ),
                    forall|x: int|
                        #![trigger v_table@[x]]
                        #![trigger p_table@[x]]
                        max - d < x < max + d && (x >= k || (x - (max - d)) % 2 != 0)
                            ==> sound_entry(
                            o,
                            t,
                            max as int,
                            x,
                            v_table@[x],
                            p_table@[x]@,
                            d as int,
                        ),
                    forall|x: int|
                        #![trigger v_table@[x]]
                        #![trigger p_table@[x]]
                        0 <= x < width && !(max - d < x < max + d) && !(max - d <= x < k && (x - (
                        max - d)) % 2 == 0) ==> (v_table@[x] == 0 && p_table@[x]@.len() == 0),
                decreases max + d + 2 - k,
            {
                let j: usize;
                let mut path: Vec<DiffGraphPoint>;
                // Determine the next column by extending the better of the
                // two neighbouring diagonals' round d-1 paths.
                if k == max - d || (k != max + d && v_table[k - 1] < v_table[k + 1]) {
                    proof {
                        if d > 0 {
                            assert(sound_entry(
                                o,
                                t,
                                max as int,
                                k as int + 1,
                                v_table@[k as int + 1],
                                p_table@[k as int + 1]@,
                                d as int,
                            ));
                        } else {
                            assert(v_table@[k as int + 1] == 0);
                            assert(p_table@[k as int + 1]@.len() == 0);
                        }
                    }
                    j = v_table[k + 1];
                    path = copy_path(&p_table[k + 1]);
                    proof {
                        if d >= 1 && k as int == milestone_diag(o, t, max as int, d as int) {
                            lemma_step_reaches_milestone(
                                o,
                                t,
                                max as int,
                                d as int,
                                k as int,
                                v_table@[k as int - 1] as int,
                                v_table@[k as int + 1] as int,
                                j as int,
                                true,
                            );
                        } else if d == 0 && k as int == milestone_diag(o, t, max as int, 0) {
                            assert(j as int >= milestone_step_col(o, t, 0));
                        }
                    }
                } else {
                    proof {
                        assert(sound_entry(
                            o,
                            t,
                            max as int,
                            k as int - 1,
                            v_table@[k as int - 1],
                            p_table@[k as int - 1]@,
                            d as int,
                        ));
                    }
                    j = v_table[k - 1] + 1;
                    path = copy_path(&p_table[k - 1]);
                    proof {
                        if d >= 1 && k as int == milestone_diag(o, t, max as int, d as int) {
                            lemma_step_reaches_milestone(
                                o,
                                t,
                                max as int,
                                d as int,
                                k as int,
                                v_table@[k as int - 1] as int,
                                v_table@[k as int + 1] as int,
                                j as int,
                                false,
                            );
                        }
                    }
                }
                // Infer the row from column and diagonal.
                let i = (j + max) - k;
                let next_point = DiffGraphPoint::from((i, j));
                let ghost stem = path@;
                path.push(next_point);
                proof {
                    if stem.len() == 0 {
                        assert(d == 0 && k == max && i == 0 && j == 0);
                        assert(path@ =~= seq![next_point]);
                        assert(valid_path(o, t, path@));
                        assert(nondiagonal_count(path@, 0) == 0);
                    } else {
                        if stem.last().j == j {
                            assert(insert_step(stem.last(), next_point));
                        } else {
                            assert(delete_step(stem.last(), next_point));
                        }
                        assert(valid_step(o, t, stem.last(), next_point));
                        lemma_path_push(o, t, stem, next_point);
                        lemma_nondiag_push(stem, next_point, 0);
                    }
                }
                // Extend a snake as far as it goes; record its end if it moved.
                let descent_point = self.diff_graph.snake_descent(&next_point);
                if descent_point != next_point {
                    let ghost stem2 = path@;
                    path.push(descent_point);
                    proof {
                        assert(descent_point.i > next_point.i);
                        assert(diagonal_step(next_point, descent_point));
                        assert(valid_step(o, t, next_point, descent_point));
                        lemma_path_push(o, t, stem2, descent_point);
                        lemma_nondiag_push(stem2, descent_point, 0);
                    }
                }
                proof {
                    assert(path@.last() == descent_point);
                    if descent_point.j > j {
                        assert(is_match(
                            o,
                            t,
                            next_point.i + (descent_point.i - next_point.i - 1),
                            next_point.j + (descent_point.i - next_point.i - 1),
                        ));
                        assert(descent_point.j <= o.len());
                    }
                }
                let ghost new_path = path@;
                p_table.set(k, path);
                v_table.set(k, descent_point.j);
                // Terminate the moment the corner is dominated.
                if descent_point.i >= target_len && descent_point.j >= orig_len {
                    if descent_point.i == target_len && descent_point.j == orig_len {
                        proof {
                            assert(valid_path(o, t, new_path));
                            assert(reaches_corner(o, t, new_path));
                            assert(nondiagonal_count(new_path, 0) <= d as int);
                            lemma_returned_path_minimal(o, t, new_path, d as int);
                            if d == 0 {
                                assert(new_path[0] == next_point);
                                if new_path.len() == 2 {
                                    assert(new_path[1] == descent_point);
                                    assert(step_commands(t, next_point, descent_point) =~= Seq::<
                                        (usize, DiffCommand<T::V>),
                                    >::empty());
                                }
                                assert(commands_from(t, new_path, 1) =~= Seq::<
                                    (usize, DiffCommand<T::V>),
                                >::empty());
                                assert(script_of_path(t, new_path).len() == 0);
                            }
                        }
                        let result_path = p_table.remove(k);
                        return Result::Ok(result_path);
                    } else {
                        proof {
                            if d == 0 {
                                if descent_point.i > 0 {
                                    assert(is_match(
                                        o,
                                        t,
                                        descent_point.i - 1,
                                        descent_point.j - 1,
                                    ));
                                }
                                assert(false);
                            }
                            assert(valid_path(o, t, new_path));
                            assert(new_path.last() == descent_point);
                        }
                        let overshoot_path = p_table.remove(k);
                        let repaired = complete_to_corner::<T::V>(
                            overshoot_path,
                            orig_len,
                            target_len,
                            Ghost(o),
                            Ghost(t),
                        );
                        proof {
                            assert(nondiagonal_count(new_path, 0) <= d as int);
                            lemma_corner_path_steps_at_least_distance(o, t, repaired@, 0);
                            assert(false);
                        }
                        return Result::Ok(repaired);
                    }
                }
                proof {
                    assert(sound_entry(
                        o,
                        t,
                        max as int,
                        k as int,
                        v_table@[k as int],
                        p_table@[k as int]@,
                        d as int + 1,
                    ));
                    lemma_milestone_band(o, t, max as int, d as int);
                    if d >= 1 {
                        assert(k as int != milestone_diag(o, t, max as int, d as int - 1));
                    }
                    if k as int == milestone_diag(o, t, max as int, d as int) {
                        assert(descent_point.j >= j);
                        lemma_entry_reaches_milestone(
                            o,
                            t,
                            max as int,
                            d as int,
                            k as int,
                            descent_point,
                        );
                        assert(v_table@[k as int] >= milestone_col(o, t, d as int));
                    }
                }
                k = k + 2;
            }
            proof {
                lemma_milestone_band(o, t, max as int, d as int);
                if d as int == spec_edit_distance(o, t) {
                    let wd = milestone_diag(o, t, max as int, d as int);
                    lemma_milestone_corner(o, t);
                    assert(v_table@[wd] >= milestone_col(o, t, d as int));
                    assert(sound_entry(
                        o,
                        t,
                        max as int,
                        wd,
                        v_table@[wd],
                        p_table@[wd]@,
                        d as int + 1,
                    ));
                    assert(p_table@[wd]@.last().j >= o.len());
                    assert(p_table@[wd]@.last().i >= t.len());
                    assert(false);
                }
                if d == 0 && o == t {
                    assert(sound_entry(
                        o,
                        t,
                        max as int,
                        max as int,
                        v_table@[max as int],
                        p_table@[max as int]@,
                        d as int + 1,
                    ));
                    assert(false);
                }
                assert forall|x: int| max - (d + 1) < x < max + (d + 1) implies sound_entry(
                    o,
                    t,
                    max as int,
                    x,
                    v_table@[x],
                    p_table@[x]@,
                    d as int + 1,
                ) by {
                    if max - d <= x && (x - (max - d)) % 2 == 0 {
                        assert(sound_entry(
                            o,
                            t,
                            max as int,
                            x,
                            v_table@[x],
                            p_table@[x]@,
                            d as int + 1,
                        ));
                    } else {
                        assert(max - d < x < max + d && (x - (max - d)) % 2 != 0);
                        assert(sound_entry(o, t, max as int, x, v_table@[x], p_table@[x]@, d as int));
                    }
                }
            }
            d = d + 1;
        }
        proof {
            lemma_dist_range(o, t, 0, 0);
            assert(false);
        }
        Result::Err(DiffError::AlgorithmInvariantViolation)
    }
}

} // verus!
