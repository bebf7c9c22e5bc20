//! A diff/patch engine over ordered sequences of comparable elements.
//!
//! The crate computes a minimal edit script between an `original` and a
//! `target` sequence (insertions and deletions only), and can replay such a
//! script against a copy of the original to materialize the target.

use vstd::prelude::*;

pub mod edit_path;
pub mod element;
pub mod error;
pub mod graph;
pub mod linked_list;
pub mod render;
pub mod script;
pub mod solver;

use crate::edit_path::{
    lemma_corner_path_steps_at_least_distance, lemma_valid_path_constructible, reaches_corner,
    spec_edit_distance, valid_path,
};
use crate::element::DiffGraphable;
use crate::error::DiffError;
use crate::graph::DiffGraph;
use crate::script::{
    apply_commands, lemma_empty_original_all_inserts, lemma_empty_target_all_deletes,
    lemma_round_trip, lemma_script_length_counts_edit_moves, lemma_script_positions_nondecreasing,
    positions_nondecreasing, DiffCommand, DiffScript,
};
use crate::solver::DiffGraphSolver;

verus! {

/// Computes a minimal edit script turning `original` into `target`:
/// replaying the returned script against `original` yields exactly
/// `target`, the script is exactly as long as the insert/delete edit
/// distance of the two sequences, its stored positions never decrease,
/// equal inputs yield the empty script, an empty original yields inserts
/// only and an empty target deletes only. The computation has no side
/// effects and always succeeds on inputs within the machine-limit bound.
pub fn diff<T: DiffGraphable>(original: Vec<T>, target: Vec<T>) -> (r: Result<
    DiffScript<T>,
    DiffError,
>)
    requires
        original.deep_view().len() + target.deep_view().len() <= usize::MAX / 4 - 2,
    ensures
        r is Ok,
        (r matches Ok(s) ==> apply_commands(s.model(), original.deep_view(), 0) == Some(
            target.deep_view(),
        )),
        (r matches Ok(s) ==> positions_nondecreasing(s.model())),
        (r matches Ok(s) ==> s.model().len() == spec_edit_distance(
            original.deep_view(),
            target.deep_view(),
        )),
        (original.deep_view() == target.deep_view() ==> (r matches Ok(s) && s.model().len()
            == 0)),
        (r matches Ok(s) ==> (original.deep_view().len() == 0 ==> s.model() == Seq::new(
            target.deep_view().len(),
            |x: int| (0usize, DiffCommand::Insert(target.deep_view()[x])),
        ))),
        (r matches Ok(s) ==> (target.deep_view().len() == 0 ==> s.model() == Seq::new(
            original.deep_view().len(),
            |x: int| ((x as usize), DiffCommand::<T::V>::Delete),
        ))),
{
    let ghost o = original.deep_view();
    let ghost t = target.deep_view();
    let diff_graph = DiffGraph::new(original, target);
    let solver = DiffGraphSolver::from(&diff_graph);
    match solver.find_min_edit_path() {
        Result::Ok(edit_path) => {
            proof {
                assert(valid_path(o, t, edit_path@));
                assert(reaches_corner(o, t, edit_path@));
                lemma_valid_path_constructible(o, t, edit_path@);
                lemma_round_trip(o, t, edit_path@);
                lemma_script_positions_nondecreasing(o, t, edit_path@);
                lemma_script_length_counts_edit_moves(t, edit_path@, 0);
                lemma_corner_path_steps_at_least_distance(o, t, edit_path@, 0);
                if o.len() == 0 {
                    lemma_empty_original_all_inserts(o, t, edit_path@);
                }
                if t.len() == 0 {
                    lemma_empty_target_all_deletes(o, t, edit_path@);
                }
            }
            let script = DiffScript::new(diff_graph.target_lines.as_slice(), &edit_path);
            Result::Ok(script)
        },
        Result::Err(e) => {
            proof {
                assert(false);
            }
            Result::Err(e)
        },
    }
}

} // verus!
