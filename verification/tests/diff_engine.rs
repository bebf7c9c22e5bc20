use diff::diff;
use diff::error::DiffError;
use diff::graph::DiffGraphPoint;
use diff::script::{DiffCommand, DiffScript};

fn lines(words: &[&str]) -> Vec<String> {
    words.iter().map(|w| w.to_string()).collect()
}

/// Classic insert/delete-only edit distance, as an independent oracle.
fn edit_distance(a: &[String], b: &[String]) -> usize {
    let n = a.len();
    let m = b.len();
    let mut table = vec![vec![0usize; m + 1]; n + 1];
    for i in 0..=n {
        table[i][0] = i;
    }
    for j in 0..=m {
        table[0][j] = j;
    }
    for i in 1..=n {
        for j in 1..=m {
            table[i][j] = if a[i - 1] == b[j - 1] {
                table[i - 1][j - 1]
            } else {
                1 + table[i - 1][j].min(table[i][j - 1])
            };
        }
    }
    table[n][m]
}

#[test]
fn concrete_scenario_delete_then_insert() {
    let original = lines(&["a", "b", "c"]);
    let target = lines(&["a", "c", "d"]);
    let script = diff(original.clone(), target.clone()).unwrap();
    assert_eq!(
        script.commands,
        vec![
            (1usize, DiffCommand::Delete),
            (3usize, DiffCommand::Insert("d".to_string())),
        ]
    );
    assert_eq!(script.apply_copy(&original).unwrap(), target);
}

#[test]
fn round_trip_various_pairs() {
    let cases: Vec<(Vec<String>, Vec<String>)> = vec![
        (lines(&[]), lines(&[])),
        (lines(&["x"]), lines(&[])),
        (lines(&[]), lines(&["x"])),
        (lines(&["a", "b", "c"]), lines(&["a", "c", "d"])),
        (lines(&["k", "i", "t", "t", "e", "n"]), lines(&["s", "i", "t", "t", "i", "n", "g"])),
        (lines(&["same", "same", "same"]), lines(&["same", "same", "same"])),
        (lines(&["1", "2", "3", "4"]), lines(&["4", "3", "2", "1"])),
    ];
    for (original, target) in cases {
        let script = diff(original.clone(), target.clone()).unwrap();
        assert_eq!(script.apply_copy(&original).unwrap(), target);
    }
}

#[test]
fn round_trip_integers() {
    let original: Vec<u32> = vec![7, 8, 9, 10];
    let target: Vec<u32> = vec![8, 9, 11, 10, 12];
    let script = diff(original.clone(), target.clone()).unwrap();
    assert_eq!(script.apply_copy(&original).unwrap(), target);
}

#[test]
fn identity_gives_empty_script() {
    let original = lines(&["alpha", "beta"]);
    let script = diff(original.clone(), original.clone()).unwrap();
    assert!(script.commands.is_empty());
    assert_eq!(script.apply_copy(&original).unwrap(), original);
}

#[test]
fn empty_script_applies_as_identity() {
    let original = lines(&["alpha", "beta"]);
    let script: DiffScript<String> = DiffScript { commands: vec![] };
    assert_eq!(script.apply_copy(&original).unwrap(), original);
}

#[test]
fn minimality_matches_dynamic_programming_oracle() {
    let cases: Vec<(Vec<String>, Vec<String>)> = vec![
        (lines(&["a", "b", "c"]), lines(&["a", "c", "d"])),
        (lines(&["a", "b"]), lines(&["c", "d"])),
        (lines(&["a", "b", "a", "b"]), lines(&["b", "a", "b", "a"])),
        (lines(&["k", "i", "t", "t", "e", "n"]), lines(&["s", "i", "t", "t", "i", "n", "g"])),
        (lines(&[]), lines(&["q"])),
        (lines(&["q"]), lines(&[])),
    ];
    for (original, target) in cases {
        let script = diff(original.clone(), target.clone()).unwrap();
        assert_eq!(script.commands.len(), edit_distance(&original, &target));
    }
}

#[test]
fn determinism_byte_identical_scripts() {
    let original = lines(&["a", "b", "a", "c", "b"]);
    let target = lines(&["b", "c", "a", "b", "a"]);
    let first = diff(original.clone(), target.clone()).unwrap();
    let second = diff(original.clone(), target.clone()).unwrap();
    assert_eq!(first, second);
}

#[test]
fn apply_is_not_idempotent() {
    let original = lines(&["a", "b", "c"]);
    let target = lines(&["a", "c", "d"]);
    let script = diff(original.clone(), target.clone()).unwrap();
    let once = script.apply_copy(&original).unwrap();
    assert_eq!(once, target);
    // Replaying the same script against its own output must not be relied
    // on to reproduce the target.
    let twice = script.apply_copy(&once).unwrap();
    assert_ne!(twice, target);
}

#[test]
fn empty_original_yields_inserts_in_order() {
    let target = lines(&["p", "q", "r"]);
    let script = diff(Vec::<String>::new(), target.clone()).unwrap();
    assert_eq!(
        script.commands,
        vec![
            (0usize, DiffCommand::Insert("p".to_string())),
            (0usize, DiffCommand::Insert("q".to_string())),
            (0usize, DiffCommand::Insert("r".to_string())),
        ]
    );
    assert_eq!(script.apply_copy(&[]).unwrap(), target);
}

#[test]
fn empty_target_yields_deletes_at_ascending_positions() {
    let original = lines(&["p", "q", "r"]);
    let script = diff(original.clone(), Vec::<String>::new()).unwrap();
    assert_eq!(
        script.commands,
        vec![
            (0usize, DiffCommand::Delete),
            (1usize, DiffCommand::Delete),
            (2usize, DiffCommand::Delete),
        ]
    );
    assert_eq!(script.apply_copy(&original).unwrap(), Vec::<String>::new());
}

#[test]
fn disjoint_sequences_delete_all_then_insert_all() {
    let original = lines(&["a", "b"]);
    let target = lines(&["c", "d"]);
    let script = diff(original.clone(), target.clone()).unwrap();
    assert_eq!(
        script.commands,
        vec![
            (0usize, DiffCommand::Delete),
            (1usize, DiffCommand::Delete),
            (2usize, DiffCommand::Insert("c".to_string())),
            (2usize, DiffCommand::Insert("d".to_string())),
        ]
    );
    assert_eq!(script.apply_copy(&original).unwrap(), target);
}

#[test]
fn apply_reports_out_of_range_position() {
    let script: DiffScript<String> = DiffScript {
        commands: vec![(5usize, DiffCommand::Delete)],
    };
    let original = lines(&["only"]);
    assert_eq!(
        script.apply_copy(&original),
        Err(DiffError::ApplyRangeError { index: 0 })
    );
}

#[test]
fn apply_rejects_partial_application() {
    // The second command is out of range: nothing may be returned at all.
    let script: DiffScript<String> = DiffScript {
        commands: vec![(0usize, DiffCommand::Delete), (9usize, DiffCommand::Delete)],
    };
    let original = lines(&["a", "b"]);
    assert_eq!(
        script.apply_copy(&original),
        Err(DiffError::ApplyRangeError { index: 1 })
    );
}

#[test]
fn graph_point_delta_clone_shifts_both_coordinates() {
    let p = DiffGraphPoint { i: 2, j: 5 };
    let q = p.delta_clone(1, 1);
    assert_eq!((q.i, q.j), (3, 6));
    let r = DiffGraphPoint::from((4usize, 7usize));
    assert_eq!((r.i, r.j), (4, 7));
}

#[test]
fn edit_grid_rendering_marks_matching_diagonals() {
    let graph = diff::graph::DiffGraph::new(vec![b'a', b'b'], vec![b'a', b'c']);
    let mut expected = String::new();
    expected.push_str("     a");
    expected.push_str("     b");
    // row for target cluster "a": a match on the first diagonal only
    expected.push_str("\n  ");
    expected.push_str("\\     ");
    expected.push_str("      ");
    expected.push_str("\na    ");
    expected.push_str("X     ");
    expected.push_str("X     ");
    // row for target cluster "c": no match
    expected.push_str("\n  ");
    expected.push_str("      ");
    expected.push_str("      ");
    expected.push_str("\nc    ");
    expected.push_str("X     ");
    expected.push_str("X     ");
    assert_eq!(graph.render_edit_grid(), expected);
}
