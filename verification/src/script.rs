//! Edit scripts: ordered position-indexed Insert/Delete commands, their
//! construction from an edit path, and their replay against a sequence.

use vstd::prelude::*;

use crate::edit_path::{
    constructible_path, delete_step, diagonal_step, insert_step, lemma_path_monotone,
    nondiagonal_count, reaches_corner, step_shape, valid_path, valid_step,
};
use crate::element::DiffGraphable;
use crate::error::DiffError;
use crate::graph::{is_match, DiffGraphPoint};

verus! {

/// One replayable command: delete the element at the stored position, or
/// insert the carried element there.
#[derive(Debug, Clone, PartialEq, Eq)]
pub enum DiffCommand<T> {
    Delete,
    Insert(T),
}

impl<T: DeepView> DeepView for DiffCommand<T> {
    type V = DiffCommand<T::V>;

    open spec fn deep_view(&self) -> Self::V {
        match self {
            DiffCommand::Delete => DiffCommand::Delete,
            DiffCommand::Insert(v) => DiffCommand::Insert(v.deep_view()),
        }
    }
}

/// Replays `cmds` against `cur`, left to right, keeping a running `off`set:
/// each command acts at its stored position plus the offset, an insert then
/// raises the offset by one and a delete lowers it by one. `None` reports a
/// command whose effective position fell out of range.
pub open spec fn apply_commands<E>(
    cmds: Seq<(usize, DiffCommand<E>)>,
    cur: Seq<E>,
    off: int,
) -> Option<Seq<E>>
    decreases cmds.len(),
{
    if cmds.len() == 0 {
        Some(cur)
    } else {
        let pos = cmds[0].0 + off;
        match cmds[0].1 {
            DiffCommand::Insert(v) => if 0 <= pos <= cur.len() {
                apply_commands(cmds.drop_first(), cur.insert(pos, v), off + 1)
            } else {
                None
            },
            DiffCommand::Delete => if 0 <= pos < cur.len() {
                apply_commands(cmds.drop_first(), cur.remove(pos), off - 1)
            } else {
                None
            },
        }
    }
}

/// The net change `cmds` make to the running offset: inserts count +1,
/// deletes -1.
pub open spec fn offset_after<E>(cmds: Seq<(usize, DiffCommand<E>)>) -> int
    decreases cmds.len(),
{
    if cmds.len() == 0 {
        0
    } else {
        (match cmds[0].1 {
            DiffCommand::Insert(_) => 1int,
            DiffCommand::Delete => -1int,
        }) + offset_after(cmds.drop_first())
    }
}

/// The commands one path step emits: a vertical step inserts the target
/// element left of the step, a horizontal step deletes, a diagonal emits
/// nothing. Positions index the original sequence.
pub open spec fn step_commands<E>(
    target: Seq<E>,
    p: DiffGraphPoint,
    q: DiffGraphPoint,
) -> Seq<(usize, DiffCommand<E>)> {
    if insert_step(p, q) {
        seq![(p.j, DiffCommand::Insert(target[p.i as int]))]
    } else if delete_step(p, q) {
        seq![(p.j, DiffCommand::Delete)]
    } else {
        Seq::empty()
    }
}

/// The commands emitted by the path steps from index `n` on, in traversal
/// order.
pub open spec fn commands_from<E>(
    target: Seq<E>,
    path: Seq<DiffGraphPoint>,
    n: int,
) -> Seq<(usize, DiffCommand<E>)>
    decreases path.len() - n,
{
    if n < 0 || n + 1 >= path.len() {
        Seq::empty()
    } else {
        step_commands(target, path[n], path[n + 1]) + commands_from(target, path, n + 1)
    }
}

/// The whole script a path denotes.
pub open spec fn script_of_path<E>(
    target: Seq<E>,
    path: Seq<DiffGraphPoint>,
) -> Seq<(usize, DiffCommand<E>)> {
    commands_from(target, path, 0)
}

/// Every stored position is at least `lo`.
pub open spec fn positions_lower_bounded<E>(
    cmds: Seq<(usize, DiffCommand<E>)>,
    lo: int,
) -> bool {
    forall|k: int| 0 <= k < cmds.len() ==> (#[trigger] cmds[k]).0 >= lo
}

/// Stored positions never decrease along the script; the replay offset
/// discipline is only sound for such scripts.
pub open spec fn positions_nondecreasing<E>(cmds: Seq<(usize, DiffCommand<E>)>) -> bool {
    forall|a: int, b: int|
        0 <= a <= b < cmds.len() ==> (#[trigger] cmds[a]).0 <= (#[trigger] cmds[b]).0
}

/// Replaying an empty script changes nothing (the second half of the
/// identity law).
pub proof fn lemma_apply_empty<E>(cur: Seq<E>, off: int)
    ensures
        apply_commands(Seq::<(usize, DiffCommand<E>)>::empty(), cur, off) == Some(cur),
{
}

/// Appending one command to a script replays the script first, then the
/// command at the accumulated offset.
pub proof fn lemma_apply_commands_push<E>(
    cmds: Seq<(usize, DiffCommand<E>)>,
    c: (usize, DiffCommand<E>),
    cur: Seq<E>,
    off: int,
)
    ensures
        apply_commands(cmds, cur, off) is None ==> apply_commands(cmds.push(c), cur, off) is None,
        apply_commands(cmds, cur, off) matches Some(mid) ==> apply_commands(cmds.push(c), cur, off)
            == apply_commands(seq![c], mid, off + offset_after(cmds)),
    decreases cmds.len(),
{
    if cmds.len() == 0 {
        assert(cmds.push(c) =~= seq![c]);
    } else {
        let rest = cmds.drop_first();
        assert(cmds.push(c).drop_first() =~= rest.push(c));
        assert(cmds.push(c)[0] == cmds[0]);
        let pos = cmds[0].0 + off;
        match cmds[0].1 {
            DiffCommand::Insert(v) => {
                if 0 <= pos <= cur.len() {
                    lemma_apply_commands_push(rest, c, cur.insert(pos, v), off + 1);
                }
            },
            DiffCommand::Delete => {
                if 0 <= pos < cur.len() {
                    lemma_apply_commands_push(rest, c, cur.remove(pos), off - 1);
                }
            },
        }
    }
}

/// The replay state along a valid corner-reaching path: at path point
/// `(i, j)` the patched sequence holds the first `i` target elements
/// followed by the original from `j` on, and replaying the remaining
/// commands from there lands exactly on the target.
proof fn lemma_replay_from<E>(orig: Seq<E>, target: Seq<E>, path: Seq<DiffGraphPoint>, n: int)
    requires
        valid_path(orig, target, path),
        reaches_corner(orig, target, path),
        0 <= n < path.len(),
    ensures
        path[n].i <= target.len(),
        path[n].j <= orig.len(),
        apply_commands(
            commands_from(target, path, n),
            target.take(path[n].i as int) + orig.skip(path[n].j as int),
            path[n].i - path[n].j,
        ) == Some(target),
    decreases path.len() - n,
{
    let p = path[n];
    lemma_path_monotone(orig, target, path, n, path.len() - 1);
    let cur = target.take(p.i as int) + orig.skip(p.j as int);
    if n == path.len() - 1 {
        assert(cur =~= target);
    } else {
        let q = path[n + 1];
        assert(valid_step(orig, target, p, q));
        lemma_replay_from(orig, target, path, n + 1);
        let curq = target.take(q.i as int) + orig.skip(q.j as int);
        let cmds = commands_from(target, path, n);
        assert(cmds == step_commands(target, p, q) + commands_from(target, path, n + 1));
        if insert_step(p, q) {
            assert(cmds[0] == (p.j, DiffCommand::Insert(target[p.i as int])));
            assert(cmds.drop_first() =~= commands_from(target, path, n + 1));
            assert(cur.insert(p.i as int, target[p.i as int]) =~= curq);
        } else if delete_step(p, q) {
            assert(cmds[0] == (p.j, DiffCommand::<E>::Delete));
            assert(cmds.drop_first() =~= commands_from(target, path, n + 1));
            assert(cur.remove(p.i as int) =~= curq);
        } else {
            assert(diagonal_step(p, q));
            assert forall|x: int| 0 <= x < cur.len() implies cur[x] == curq[x] by {
                if p.i <= x < q.i {
                    assert(is_match(orig, target, p.i + (x - p.i), p.j + (x - p.i)));
                }
            }
            assert(cur =~= curq);
            assert(commands_from(target, path, n) =~= commands_from(target, path, n + 1));
        }
    }
}

/// Round trip: the script built from any valid corner-reaching edit path,
/// replayed against the original sequence, materializes the target.
pub proof fn lemma_round_trip<E>(orig: Seq<E>, target: Seq<E>, path: Seq<DiffGraphPoint>)
    requires
        valid_path(orig, target, path),
        reaches_corner(orig, target, path),
    ensures
        apply_commands(script_of_path(target, path), orig, 0) == Some(target),
{
    lemma_replay_from(orig, target, path, 0);
    assert(target.take(0) + orig.skip(0) =~= orig);
}

/// The script a path denotes carries exactly one command per non-diagonal
/// move of the path: its length counts the path's insert and delete moves.
pub proof fn lemma_script_length_counts_edit_moves<E>(
    target: Seq<E>,
    path: Seq<DiffGraphPoint>,
    n: int,
)
    ensures
        commands_from(target, path, n).len() == nondiagonal_count(path, n),
    decreases path.len() - n,
{
    if 0 <= n && n + 1 < path.len() {
        lemma_script_length_counts_edit_moves(target, path, n + 1);
    }
}

proof fn lemma_script_sorted_from<E>(orig: Seq<E>, target: Seq<E>, path: Seq<DiffGraphPoint>, n: int)
    requires
        valid_path(orig, target, path),
        0 <= n,
    ensures
        n < path.len() ==> positions_lower_bounded(
            commands_from(target, path, n),
            path[n].j as int,
        ),
        positions_nondecreasing(commands_from(target, path, n)),
    decreases path.len() - n,
{
    if n + 1 < path.len() {
        let p = path[n];
        let q = path[n + 1];
        assert(valid_step(orig, target, p, q));
        lemma_script_sorted_from(orig, target, path, n + 1);
        let step = step_commands(target, p, q);
        let rest = commands_from(target, path, n + 1);
        let all = commands_from(target, path, n);
        assert(all == step + rest);
        assert forall|k: int| 0 <= k < all.len() implies (#[trigger] all[k]).0 >= p.j as int by {
            if k < step.len() {
                assert(all[k] == step[k]);
            } else {
                assert(all[k] == rest[k - step.len()]);
            }
        }
        assert forall|a: int, b: int| 0 <= a <= b < all.len() implies (#[trigger] all[a]).0
            <= (#[trigger] all[b]).0 by {
            if a < step.len() {
                assert(all[a] == step[a]);
                assert(all[a].0 == p.j);
                if b >= step.len() {
                    assert(all[b] == rest[b - step.len()]);
                }
            } else {
                assert(all[a] == rest[a - step.len()]);
                assert(all[b] == rest[b - step.len()]);
            }
        }
    }
}

/// Along the script a valid path denotes, stored positions never decrease:
/// the ordering the replay offset discipline relies on.
pub proof fn lemma_script_positions_nondecreasing<E>(
    orig: Seq<E>,
    target: Seq<E>,
    path: Seq<DiffGraphPoint>,
)
    requires
        valid_path(orig, target, path),
    ensures
        positions_nondecreasing(script_of_path(target, path)),
{
    lemma_script_sorted_from(orig, target, path, 0);
}

/// Appending one command shifts the accumulated offset by that command's
/// own contribution.
pub proof fn lemma_offset_after_push<E>(cmds: Seq<(usize, DiffCommand<E>)>, c: (usize, DiffCommand<E>))
    ensures
        offset_after(cmds.push(c)) == offset_after(cmds) + (match c.1 {
            DiffCommand::Insert(_) => 1int,
            DiffCommand::Delete => -1int,
        }),
    decreases cmds.len(),
{
    if cmds.len() == 0 {
        assert(cmds.push(c) =~= seq![c]);
        assert(seq![c].drop_first() =~= Seq::<(usize, DiffCommand<E>)>::empty());
        assert(offset_after(cmds) == 0);
        assert(offset_after(Seq::<(usize, DiffCommand<E>)>::empty()) == 0);
        assert(seq![c][0] == c);
        assert(offset_after(seq![c]) == (match c.1 {
            DiffCommand::Insert(_) => 1int,
            DiffCommand::Delete => -1int,
        }));
    } else {
        assert(cmds.push(c)[0] == cmds[0]);
        assert(cmds.push(c).drop_first() =~= cmds.drop_first().push(c));
        lemma_offset_after_push(cmds.drop_first(), c);
    }
}

proof fn lemma_empty_orig_shape<E>(orig: Seq<E>, target: Seq<E>, path: Seq<DiffGraphPoint>, n: int)
    requires
        valid_path(orig, target, path),
        reaches_corner(orig, target, path),
        orig.len() == 0,
        0 <= n < path.len(),
    ensures
        path[n].i == n,
        path[n].j == 0,
    decreases n,
{
    lemma_path_monotone(orig, target, path, n, path.len() - 1);
    if n > 0 {
        let m = n - 1;
        lemma_empty_orig_shape(orig, target, path, m);
        assert(valid_step(orig, target, path[m], path[m + 1]));
    }
}

proof fn lemma_empty_orig_cmds<E>(orig: Seq<E>, target: Seq<E>, path: Seq<DiffGraphPoint>, n: int)
    requires
        valid_path(orig, target, path),
        reaches_corner(orig, target, path),
        orig.len() == 0,
        0 <= n < path.len(),
    ensures
        path.len() == target.len() + 1,
        commands_from(target, path, n) =~= Seq::new(
            (target.len() - n) as nat,
            |k: int| (0usize, DiffCommand::Insert(target[n + k])),
        ),
    decreases path.len() - n,
{
    lemma_empty_orig_shape(orig, target, path, path.len() - 1);
    assert(path.len() == target.len() + 1);
    lemma_empty_orig_shape(orig, target, path, n);
    if n + 1 < path.len() {
        lemma_empty_orig_shape(orig, target, path, n + 1);
        lemma_empty_orig_cmds(orig, target, path, n + 1);
        assert(valid_step(orig, target, path[n], path[n + 1]));
        assert(insert_step(path[n], path[n + 1]));
    }
}

/// Boundary case: with an empty original, the script is exactly one insert
/// at position 0 for every target element, in target order.
pub proof fn lemma_empty_original_all_inserts<E>(
    orig: Seq<E>,
    target: Seq<E>,
    path: Seq<DiffGraphPoint>,
)
    requires
        valid_path(orig, target, path),
        reaches_corner(orig, target, path),
        orig.len() == 0,
    ensures
        script_of_path(target, path) == Seq::new(
            target.len(),
            |k: int| (0usize, DiffCommand::Insert(target[k])),
        ),
{
    lemma_empty_orig_cmds(orig, target, path, 0);
    assert(script_of_path(target, path) =~= Seq::new(
        target.len(),
        |k: int| (0usize, DiffCommand::Insert(target[k])),
    ));
}

proof fn lemma_empty_target_shape<E>(orig: Seq<E>, target: Seq<E>, path: Seq<DiffGraphPoint>, n: int)
    requires
        valid_path(orig, target, path),
        reaches_corner(orig, target, path),
        target.len() == 0,
        0 <= n < path.len(),
    ensures
        path[n].i == 0,
        path[n].j == n,
    decreases n,
{
    lemma_path_monotone(orig, target, path, n, path.len() - 1);
    if n > 0 {
        let m = n - 1;
        lemma_empty_target_shape(orig, target, path, m);
        assert(valid_step(orig, target, path[m], path[m + 1]));
    }
}

proof fn lemma_empty_target_cmds<E>(orig: Seq<E>, target: Seq<E>, path: Seq<DiffGraphPoint>, n: int)
    requires
        valid_path(orig, target, path),
        reaches_corner(orig, target, path),
        target.len() == 0,
        0 <= n < path.len(),
    ensures
        path.len() == orig.len() + 1,
        commands_from(target, path, n) =~= Seq::new(
            (orig.len() - n) as nat,
            |k: int| (((n + k) as usize), DiffCommand::<E>::Delete),
        ),
    decreases path.len() - n,
{
    lemma_empty_target_shape(orig, target, path, path.len() - 1);
    assert(path.len() == orig.len() + 1);
    lemma_empty_target_shape(orig, target, path, n);
    if n + 1 < path.len() {
        lemma_empty_target_shape(orig, target, path, n + 1);
        lemma_empty_target_cmds(orig, target, path, n + 1);
        assert(valid_step(orig, target, path[n], path[n + 1]));
        assert(delete_step(path[n], path[n + 1]));
    }
}

/// Boundary case: with an empty target, the script deletes every original
/// element, carrying the ascending stored positions `0, 1, …` whose replay
/// (offset-corrected) always removes the front element.
pub proof fn lemma_empty_target_all_deletes<E>(
    orig: Seq<E>,
    target: Seq<E>,
    path: Seq<DiffGraphPoint>,
)
    requires
        valid_path(orig, target, path),
        reaches_corner(orig, target, path),
        target.len() == 0,
    ensures
        script_of_path(target, path) == Seq::new(
            orig.len(),
            |k: int| ((k as usize), DiffCommand::<E>::Delete),
        ),
{
    lemma_empty_target_cmds(orig, target, path, 0);
    assert(script_of_path(target, path) =~= Seq::new(
        orig.len(),
        |k: int| ((k as usize), DiffCommand::<E>::Delete),
    ));
}

/// An ordered list of position-indexed commands: the one artifact of a diff
/// computation meant to outlive it.
#[derive(Debug, Clone, PartialEq, Eq)]
pub struct DiffScript<T: DiffGraphable> {
    pub commands: Vec<(usize, DiffCommand<T>)>,
}

impl<T: DiffGraphable> DiffScript<T> {
    /// The script as abstract command values.
    pub open spec fn model(&self) -> Seq<(usize, DiffCommand<T::V>)> {
        self.commands.deep_view()
    }

    /// Translates an edit path into a script: walking the path pairwise, a
    /// vertical step emits an insert of the target element left of it, a
    /// horizontal step emits a delete, diagonals emit nothing; positions are
    /// the original-sequence index at the step.
    pub fn new(target: &[T], edit_path: &Vec<DiffGraphPoint>) -> (s: Self)
        requires
            constructible_path(target.deep_view(), edit_path@),
        ensures
            s.model() == script_of_path(target.deep_view(), edit_path@),
    {
        let ghost tdeep = target.deep_view();
        let mut res = DiffScript { commands: Vec::<(usize, DiffCommand<T>)>::new() };
        let len = edit_path.len();
        if len == 0 {
            proof {
                assert(res.model() =~= script_of_path(tdeep, edit_path@));
            }
            return res;
        }
        let mut idx: usize = 0;
        while idx < len - 1
            invariant
                len == edit_path@.len(),
                1 <= len,
                idx < len,
                constructible_path(tdeep, edit_path@),
                tdeep == target.deep_view(),
                res.commands.deep_view() + commands_from(tdeep, edit_path@, idx as int)
                    == script_of_path(tdeep, edit_path@),
            decreases len - idx,
        {
            let prev = edit_path[idx];
            let curr = edit_path[idx + 1];
            proof {
                assert(step_shape(edit_path@[idx as int], edit_path@[idx as int + 1]));
                assert(edit_path@[idx as int].i < usize::MAX);
                assert(edit_path@[idx as int].j < usize::MAX);
                assert(commands_from(tdeep, edit_path@, idx as int) == step_commands(
                    tdeep,
                    prev,
                    curr,
                ) + commands_from(tdeep, edit_path@, idx as int + 1));
            }
            if curr.j == prev.j && curr.i == prev.i + 1 {
                proof {
                    assert(insert_step(edit_path@[idx as int], edit_path@[idx as int + 1]));
                }
                let ghost before = res.commands.deep_view();
                let element = vstd::slice::slice_index_get(target, prev.i).dup();
                res.commands.push((prev.j, DiffCommand::Insert(element)));
                proof {
                    assert(res.commands.deep_view() =~= before.push(
                        (prev.j, DiffCommand::Insert(tdeep[prev.i as int])),
                    ));
                    assert(before.push((prev.j, DiffCommand::Insert(tdeep[prev.i as int])))
                        + commands_from(tdeep, edit_path@, idx as int + 1) =~= before
                        + commands_from(tdeep, edit_path@, idx as int));
                }
            } else if curr.i == prev.i && curr.j == prev.j + 1 {
                let ghost before = res.commands.deep_view();
                res.commands.push((prev.j, DiffCommand::Delete));
                proof {
                    assert(res.commands.deep_view() =~= before.push(
                        (prev.j, DiffCommand::<T::V>::Delete),
                    ));
                    assert(before.push((prev.j, DiffCommand::<T::V>::Delete)) + commands_from(
                        tdeep,
                        edit_path@,
                        idx as int + 1,
                    ) =~= before + commands_from(tdeep, edit_path@, idx as int));
                }
            } else {
                proof {
                    assert(diagonal_step(edit_path@[idx as int], edit_path@[idx as int + 1]));
                    assert(step_commands(tdeep, prev, curr) =~= Seq::<
                        (usize, DiffCommand<T::V>),
                    >::empty());
                    assert(res.commands.deep_view() + commands_from(
                        tdeep,
                        edit_path@,
                        idx as int + 1,
                    ) =~= res.commands.deep_view() + commands_from(tdeep, edit_path@, idx as int));
                }
            }
            idx += 1;
        }
        proof {
            assert(commands_from(tdeep, edit_path@, idx as int) =~= Seq::<
                (usize, DiffCommand<T::V>),
            >::empty());
            assert(res.commands.deep_view() + Seq::<(usize, DiffCommand<T::V>)>::empty()
                =~= res.commands.deep_view());
        }
        res
    }

    /// Replays the script against a copy of `target`, single left-to-right
    /// pass with an accumulating offset. Either the whole script applies and
    /// the patched copy is returned, or the first command whose effective
    /// position falls out of range is reported and nothing is returned.
    pub fn apply_copy(&self, target: &[T]) -> (r: Result<Vec<T>, DiffError>)
        ensures
            (r matches Ok(v) ==> apply_commands(self.model(), target.deep_view(), 0) == Some(
                v.deep_view(),
            )),
            (r is Err ==> apply_commands(self.model(), target.deep_view(), 0) is None),
            (r matches Err(e) ==> (e matches DiffError::ApplyRangeError { index }
                && index < self.model().len() && apply_commands(
                self.model().take(index as int),
                target.deep_view(),
                0,
            ) is Some && apply_commands(
                self.model().take(index as int + 1),
                target.deep_view(),
                0,
            ) is None)),
    {
        let ghost m = self.model();
        let ghost tdeep = target.deep_view();
        let mut copied: Vec<T> = Vec::<T>::new();
        let tlen = target.len();
        let mut i: usize = 0;
        while i < tlen
            invariant
                i <= tlen,
                tlen == tdeep.len(),
                tdeep == target.deep_view(),
                copied.deep_view() =~= tdeep.take(i as int),
            decreases tlen - i,
        {
            let ghost before = copied.deep_view();
            copied.push(vstd::slice::slice_index_get(target, i).dup());
            proof {
                assert(copied.deep_view() =~= before.push(tdeep[i as int]));
                assert(before.push(tdeep[i as int]) =~= tdeep.take(i as int + 1));
            }
            i += 1;
        }
        proof {
            assert(copied.deep_view() =~= tdeep);
            assert(m.skip(0) =~= m);
            assert(m.take(0) =~= Seq::<(usize, DiffCommand<T::V>)>::empty());
            assert(offset_after(Seq::<(usize, DiffCommand<T::V>)>::empty()) == 0);
        }
        let mut inserted: usize = 0;
        let mut deleted: usize = 0;
        let mut cidx: usize = 0;
        let clen = self.commands.len();
        while cidx < clen
            invariant
                clen == m.len(),
                cidx <= clen,
                inserted <= cidx,
                deleted <= cidx,
                m == self.model(),
                tdeep == target.deep_view(),
                apply_commands(m.skip(cidx as int), copied.deep_view(), inserted - deleted)
                    == apply_commands(m, tdeep, 0),
                apply_commands(m.take(cidx as int), tdeep, 0) == Some(copied.deep_view()),
                offset_after(m.take(cidx as int)) == inserted - deleted,
            decreases clen - cidx,
        {
            let pos = self.commands[cidx].0;
            proof {
                assert(m[cidx as int] == self.commands@[cidx as int].deep_view());
                assert(m.skip(cidx as int)[0] == m[cidx as int]);
                assert(m.skip(cidx as int).drop_first() =~= m.skip(cidx as int + 1));
                assert(m.take(cidx as int + 1) =~= m.take(cidx as int).push(m[cidx as int]));
                lemma_apply_commands_push(m.take(cidx as int), m[cidx as int], tdeep, 0);
                lemma_offset_after_push(m.take(cidx as int), m[cidx as int]);
            }
            let mut eff: Option<usize> = None;
            if inserted >= deleted {
                let shift = inserted - deleted;
                if shift <= usize::MAX - pos {
                    eff = Some(pos + shift);
                }
            } else {
                let shift = deleted - inserted;
                if shift <= pos {
                    eff = Some(pos - shift);
                }
            }
            let cur_len = copied.len();
            let ghost old_copied = copied.deep_view();
            proof {
                assert(cur_len == old_copied.len());
            }
            match &self.commands[cidx].1 {
                DiffCommand::Insert(v) => {
                    let mut stored: bool = false;
                    if let Some(e) = eff {
                        if e <= cur_len {
                            copied.insert(e, v.dup());
                            proof {
                                let c_m = m[cidx as int];
                                assert(c_m.1 == DiffCommand::Insert(v.deep_view()));
                                assert(copied.deep_view() =~= old_copied.insert(
                                    e as int,
                                    v.deep_view(),
                                ));
                                assert(seq![c_m].drop_first() =~= Seq::<
                                    (usize, DiffCommand<T::V>),
                                >::empty());
                                assert(seq![c_m][0] == c_m);
                                assert(c_m.0 == pos);
                                assert(c_m.0 + (inserted - deleted) == e as int);
                                assert(apply_commands(
                                    Seq::<(usize, DiffCommand<T::V>)>::empty(),
                                    old_copied.insert(e as int, v.deep_view()),
                                    inserted - deleted + 1,
                                ) == Some(old_copied.insert(e as int, v.deep_view())));
                                assert(apply_commands(
                                    seq![c_m],
                                    old_copied,
                                    inserted - deleted,
                                ) == Some(copied.deep_view()));
                                assert(apply_commands(m.take(cidx as int + 1), tdeep, 0) == Some(
                                    copied.deep_view(),
                                ));
                                assert(apply_commands(
                                    m.skip(cidx as int + 1),
                                    copied.deep_view(),
                                    inserted - deleted + 1,
                                ) == apply_commands(m, tdeep, 0));
                            }
                            inserted = inserted + 1;
                            stored = true;
                        }
                    }
                    if !stored {
                        proof {
                            let c_m = m[cidx as int];
                            assert(apply_commands(
                                m.skip(cidx as int),
                                old_copied,
                                inserted - deleted,
                            ) is None);
                            assert(seq![c_m].drop_first() =~= Seq::<
                                (usize, DiffCommand<T::V>),
                            >::empty());
                            assert(apply_commands(
                                seq![c_m],
                                old_copied,
                                inserted - deleted,
                            ) is None);
                            assert(apply_commands(m.take(cidx as int + 1), tdeep, 0) is None);
                        }
                        return Result::Err(DiffError::ApplyRangeError { index: cidx });
                    }
                },
                DiffCommand::Delete => {
                    let mut stored: bool = false;
                    if let Some(e) = eff {
                        if e < cur_len {
                            copied.remove(e);
                            proof {
                                let c_m = m[cidx as int];
                                assert(c_m.1 == DiffCommand::<T::V>::Delete);
                                assert(copied.deep_view() =~= old_copied.remove(e as int));
                                assert(seq![c_m].drop_first() =~= Seq::<
                                    (usize, DiffCommand<T::V>),
                                >::empty());
                                assert(seq![c_m][0] == c_m);
                                assert(c_m.0 == pos);
                                assert(c_m.0 + (inserted - deleted) == e as int);
                                assert(apply_commands(
                                    Seq::<(usize, DiffCommand<T::V>)>::empty(),
                                    old_copied.remove(e as int),
                                    inserted - deleted - 1,
                                ) == Some(old_copied.remove(e as int)));
                                assert(apply_commands(
                                    seq![c_m],
                                    old_copied,
                                    inserted - deleted,
                                ) == Some(copied.deep_view()));
                                assert(apply_commands(m.take(cidx as int + 1), tdeep, 0) == Some(
                                    copied.deep_view(),
                                ));
                                assert(apply_commands(
                                    m.skip(cidx as int + 1),
                                    copied.deep_view(),
                                    inserted - deleted - 1,
                                ) == apply_commands(m, tdeep, 0));
                            }
                            deleted = deleted + 1;
                            stored = true;
                        }
                    }
                    if !stored {
                        proof {
                            let c_m = m[cidx as int];
                            assert(apply_commands(
                                m.skip(cidx as int),
                                old_copied,
                                inserted - deleted,
                            ) is None);
                            assert(seq![c_m].drop_first() =~= Seq::<
                                (usize, DiffCommand<T::V>),
                            >::empty());
                            assert(apply_commands(
                                seq![c_m],
                                old_copied,
                                inserted - deleted,
                            ) is None);
                            assert(apply_commands(m.take(cidx as int + 1), tdeep, 0) is None);
                        }
                        return Result::Err(DiffError::ApplyRangeError { index: cidx });
                    }
                },
            }
            cidx = cidx + 1;
        }
        proof {
            assert(m.take(clen as int) =~= m);
        }
        Result::Ok(copied)
    }
}

} // verus!
