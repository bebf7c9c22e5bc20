//! Edit paths: sequences of graph points linked by insert, delete or
//! diagonal (match) moves, the raw result of the shortest-path search.

use vstd::prelude::*;

use crate::graph::{is_match, DiffGraphPoint};

verus! {

/// `q` lies one vertical step below `p`: one element of the target is
/// inserted.
pub open spec fn insert_step(p: DiffGraphPoint, q: DiffGraphPoint) -> bool {
    q.i == p.i + 1 && q.j == p.j
}

/// `q` lies one horizontal step right of `p`: one element of the original is
/// deleted.
pub open spec fn delete_step(p: DiffGraphPoint, q: DiffGraphPoint) -> bool {
    q.i == p.i && q.j == p.j + 1
}

/// `q` lies strictly further down `p`'s diagonal: a snake, a run of matched
/// elements.
pub open spec fn diagonal_step(p: DiffGraphPoint, q: DiffGraphPoint) -> bool {
    q.i > p.i && q.i - p.i == q.j - p.j
}

/// The shape of a legal move, ignoring what the sequences hold.
pub open spec fn step_shape(p: DiffGraphPoint, q: DiffGraphPoint) -> bool {
    insert_step(p, q) || delete_step(p, q) || diagonal_step(p, q)
}

/// A legal move in the edit graph of `orig` and `target`: a diagonal move
/// must cross matching elements only.
pub open spec fn valid_step<E>(
    orig: Seq<E>,
    target: Seq<E>,
    p: DiffGraphPoint,
    q: DiffGraphPoint,
) -> bool {
    &&& step_shape(p, q)
    &&& diagonal_step(p, q) ==> (forall|t: int|
        0 <= t < q.i - p.i ==> #[trigger] is_match(orig, target, p.i + t, p.j + t))
}

/// A well-formed edit path: it starts at the graph origin and every
/// consecutive pair of points is a legal move.
pub open spec fn valid_path<E>(orig: Seq<E>, target: Seq<E>, path: Seq<DiffGraphPoint>) -> bool {
    &&& path.len() >= 1
    &&& path[0].i == 0
    &&& path[0].j == 0
    &&& forall|n: int|
        0 <= n < path.len() - 1 ==> #[trigger] valid_step(orig, target, path[n], path[n + 1])
}

/// The path ends exactly on the far corner of the edit graph.
pub open spec fn reaches_corner<E>(orig: Seq<E>, target: Seq<E>, path: Seq<DiffGraphPoint>) -> bool {
    &&& path.last().i == target.len()
    &&& path.last().j == orig.len()
}

/// Every point's coordinates stay clear of the `usize` ceiling, so that
/// stepping arithmetic cannot overflow.
pub open spec fn bounded_points(path: Seq<DiffGraphPoint>) -> bool {
    forall|n: int|
        0 <= n < path.len() ==> ((#[trigger] path[n]).i < usize::MAX && path[n].j < usize::MAX)
}

/// What building a script out of a path needs: every move has a legal
/// shape, every vertical move can draw its element from the target, and no
/// coordinate can overflow.
pub open spec fn constructible_path<E>(target: Seq<E>, path: Seq<DiffGraphPoint>) -> bool {
    &&& forall|n: int|
        0 <= n < path.len() - 1 ==> #[trigger] step_shape(path[n], path[n + 1])
    &&& forall|n: int|
        0 <= n < path.len() - 1 ==> ((#[trigger] insert_step(path[n], path[n + 1]))
            ==> path[n].i < target.len())
    &&& bounded_points(path)
}

/// A valid path that ends on the far corner of a graph whose sides leave
/// room under `usize::MAX` is constructible.
pub proof fn lemma_valid_path_constructible<E>(
    orig: Seq<E>,
    target: Seq<E>,
    path: Seq<DiffGraphPoint>,
)
    requires
        valid_path(orig, target, path),
        reaches_corner(orig, target, path),
        orig.len() < usize::MAX,
        target.len() < usize::MAX,
    ensures
        constructible_path(target, path),
{
    assert forall|n: int| 0 <= n < path.len() - 1 implies #[trigger] step_shape(
        path[n],
        path[n + 1],
    ) by {
        assert(valid_step(orig, target, path[n], path[n + 1]));
    }
    assert forall|n: int|
        0 <= n < path.len() - 1 implies ((#[trigger] insert_step(path[n], path[n + 1]))
        ==> path[n].i < target.len()) by {
        lemma_path_monotone(orig, target, path, n + 1, path.len() - 1);
    }
    assert forall|n: int|
        0 <= n < path.len() implies ((#[trigger] path[n]).i < usize::MAX && path[n].j
        < usize::MAX) by {
        lemma_path_monotone(orig, target, path, n, path.len() - 1);
    }
}

/// Along a valid path both coordinates never decrease.
pub proof fn lemma_path_monotone<E>(
    orig: Seq<E>,
    target: Seq<E>,
    path: Seq<DiffGraphPoint>,
    a: int,
    b: int,
)
    requires
        valid_path(orig, target, path),
        0 <= a <= b < path.len(),
    ensures
        path[a].i <= path[b].i,
        path[a].j <= path[b].j,
    decreases b - a,
{
    if a < b {
        let m = b - 1;
        lemma_path_monotone(orig, target, path, a, m);
        assert(valid_step(orig, target, path[m], path[m + 1]));
    }
}

/// The number of single insert or delete moves along the path from step
/// `n` on.
pub open spec fn nondiagonal_count(path: Seq<DiffGraphPoint>, n: int) -> int
    decreases path.len() - n,
{
    if n < 0 || n + 1 >= path.len() {
        0
    } else {
        (if insert_step(path[n], path[n + 1]) || delete_step(path[n], path[n + 1]) {
            1int
        } else {
            0int
        }) + nondiagonal_count(path, n + 1)
    }
}

/// The classic insert/delete-only edit distance between the target suffix
/// from `i` and the original suffix from `j`: the dynamic-programming
/// recurrence of the minimal number of single-element moves.
pub open spec fn edit_distance_from<E>(orig: Seq<E>, target: Seq<E>, i: int, j: int) -> int
    decreases (target.len() - i) + (orig.len() - j),
{
    if i >= target.len() && j >= orig.len() {
        0
    } else if i >= target.len() {
        orig.len() - j
    } else if j >= orig.len() {
        target.len() - i
    } else if target[i] == orig[j] {
        edit_distance_from(orig, target, i + 1, j + 1)
    } else {
        1 + (if edit_distance_from(orig, target, i + 1, j) <= edit_distance_from(
            orig,
            target,
            i,
            j + 1,
        ) {
            edit_distance_from(orig, target, i + 1, j)
        } else {
            edit_distance_from(orig, target, i, j + 1)
        })
    }
}

/// The insert/delete edit distance between the two whole sequences.
pub open spec fn spec_edit_distance<E>(orig: Seq<E>, target: Seq<E>) -> int {
    edit_distance_from(orig, target, 0, 0)
}

/// Advancing either endpoint by one changes the edit distance by at most
/// one, in both directions.
proof fn lemma_dist_step_bounds<E>(orig: Seq<E>, target: Seq<E>, i: int, j: int)
    requires
        0 <= i <= target.len(),
        0 <= j <= orig.len(),
    ensures
        i < target.len() ==> edit_distance_from(orig, target, i, j) <= 1 + edit_distance_from(
            orig,
            target,
            i + 1,
            j,
        ),
        j < orig.len() ==> edit_distance_from(orig, target, i, j) <= 1 + edit_distance_from(
            orig,
            target,
            i,
            j + 1,
        ),
        i < target.len() ==> edit_distance_from(orig, target, i + 1, j) <= 1 + edit_distance_from(
            orig,
            target,
            i,
            j,
        ),
        j < orig.len() ==> edit_distance_from(orig, target, i, j + 1) <= 1 + edit_distance_from(
            orig,
            target,
            i,
            j,
        ),
    decreases (target.len() - i) + (orig.len() - j),
{
    if i < target.len() && j < orig.len() {
        lemma_dist_step_bounds(orig, target, i + 1, j);
        lemma_dist_step_bounds(orig, target, i, j + 1);
    } else if i < target.len() {
        lemma_dist_step_bounds(orig, target, i + 1, j);
    } else if j < orig.len() {
        lemma_dist_step_bounds(orig, target, i, j + 1);
    }
}

/// The edit distance is constant along a run of matching diagonal steps.
pub proof fn lemma_dist_along_matches<E>(orig: Seq<E>, target: Seq<E>, i: int, j: int, steps: int)
    requires
        0 <= steps,
        0 <= i,
        0 <= j,
        forall|s: int| 0 <= s < steps ==> #[trigger] is_match(orig, target, i + s, j + s),
    ensures
        edit_distance_from(orig, target, i, j) == edit_distance_from(
            orig,
            target,
            i + steps,
            j + steps,
        ),
    decreases steps,
{
    if steps > 0 {
        assert(is_match(orig, target, i + 0, j + 0));
        assert forall|s: int| 0 <= s < steps - 1 implies #[trigger] is_match(
            orig,
            target,
            (i + 1) + s,
            (j + 1) + s,
        ) by {
            assert(is_match(orig, target, i + (s + 1), j + (s + 1)));
        }
        lemma_dist_along_matches(orig, target, i + 1, j + 1, steps - 1);
    }
}

/// Law (the lower half of minimality): from any of its points on, a valid
/// corner-reaching edit path spends at least the remaining insert/delete
/// edit distance in non-diagonal moves.
pub proof fn lemma_corner_path_steps_at_least_distance<E>(
    orig: Seq<E>,
    target: Seq<E>,
    q: Seq<DiffGraphPoint>,
    n: int,
)
    requires
        valid_path(orig, target, q),
        reaches_corner(orig, target, q),
        0 <= n < q.len(),
    ensures
        nondiagonal_count(q, n) >= edit_distance_from(orig, target, q[n].i as int, q[n].j as int),
    decreases q.len() - n,
{
    lemma_path_monotone(orig, target, q, n, q.len() - 1);
    let p = q[n];
    if n == q.len() - 1 {
    } else {
        let r = q[n + 1];
        assert(valid_step(orig, target, q[n], q[n + 1]));
        lemma_path_monotone(orig, target, q, n + 1, q.len() - 1);
        lemma_corner_path_steps_at_least_distance(orig, target, q, n + 1);
        if insert_step(p, r) {
            lemma_dist_step_bounds(orig, target, p.i as int, p.j as int);
        } else if delete_step(p, r) {
            lemma_dist_step_bounds(orig, target, p.i as int, p.j as int);
        } else {
            lemma_dist_along_matches(orig, target, p.i as int, p.j as int, r.i - p.i);
        }
    }
}

/// Appending one point adds one edit move when the step is a unit insert
/// or delete, and none when it is diagonal.
pub proof fn lemma_nondiag_push(path: Seq<DiffGraphPoint>, p: DiffGraphPoint, n: int)
    requires
        0 <= n <= path.len() - 1,
    ensures
        nondiagonal_count(path.push(p), n) == nondiagonal_count(path, n) + (if insert_step(
            path.last(),
            p,
        ) || delete_step(path.last(), p) {
            1int
        } else {
            0int
        }),
    decreases path.len() - n,
{
    let np = path.push(p);
    assert(np[path.len() - 1] == path.last());
    assert(np[path.len() as int] == p);
    if n == path.len() - 1 {
        assert(nondiagonal_count(np, n + 1) == 0);
    } else {
        assert(np[n] == path[n] && np[n + 1] == path[n + 1]);
        lemma_nondiag_push(path, p, n + 1);
    }
}

/// The moves of a truncated path are the whole path's moves less those of
/// the dropped suffix.
pub proof fn lemma_nondiag_take(q: Seq<DiffGraphPoint>, k: int, n: int)
    requires
        0 <= k <= n < q.len(),
    ensures
        nondiagonal_count(q.take(n + 1), k) == nondiagonal_count(q, k) - nondiagonal_count(q, n),
    decreases n - k,
{
    let tq = q.take(n + 1);
    if k == n {
        assert(nondiagonal_count(tq, k) == 0);
    } else {
        assert(tq[k] == q[k] && tq[k + 1] == q[k + 1]);
        lemma_nondiag_take(q, k + 1, n);
    }
}

/// Once a path has crossed the corner's row or column, every further move
/// is a unit step: the remaining move count covers the full remaining
/// displacement.
pub proof fn lemma_suffix_steps_lower<E>(
    orig: Seq<E>,
    target: Seq<E>,
    q: Seq<DiffGraphPoint>,
    n: int,
)
    requires
        valid_path(orig, target, q),
        0 <= n < q.len(),
        q[n].i >= target.len() || q[n].j >= orig.len(),
    ensures
        nondiagonal_count(q, n) >= (q.last().i - q[n].i) + (q.last().j - q[n].j),
    decreases q.len() - n,
{
    if n < q.len() - 1 {
        assert(valid_step(orig, target, q[n], q[n + 1]));
        if diagonal_step(q[n], q[n + 1]) {
            assert(is_match(orig, target, q[n].i + 0, q[n].j + 0));
            assert(false);
        }
        lemma_suffix_steps_lower(orig, target, q, n + 1);
    }
}

/// Extending a valid path by one legal step keeps it valid.
pub proof fn lemma_path_push<E>(
    orig: Seq<E>,
    target: Seq<E>,
    path: Seq<DiffGraphPoint>,
    p: DiffGraphPoint,
)
    requires
        valid_path(orig, target, path),
        valid_step(orig, target, path.last(), p),
    ensures
        valid_path(orig, target, path.push(p)),
{
    let newp = path.push(p);
    assert(newp[0] == path[0]);
    assert forall|n: int| 0 <= n < newp.len() - 1 implies #[trigger] valid_step(
        orig,
        target,
        newp[n],
        newp[n + 1],
    ) by {
        if n < path.len() - 1 {
            assert(valid_step(orig, target, path[n], path[n + 1]));
            assert(newp[n] == path[n] && newp[n + 1] == path[n + 1]);
        } else {
            assert(newp[n] == path.last() && newp[n + 1] == p);
        }
    }
}

} // verus!
