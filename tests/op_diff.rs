use jj_rewrite::cli::{check_op_parents, operation_endpoints, rebase_mode, EmptyBehaviour, OpDiffError, OpEndpoints, OperationDiffArgs, RebaseArgs, RebaseMode};
use jj_rewrite::destination::RebaseError;
use jj_rewrite::graph::CommitGraph;
use jj_rewrite::op_diff::{compute_operation_commits_diff, op_diff_graph, order_changes, select_change_diff, ChangeDiff, ModifiedChange};
use jj_rewrite::refs::{is_shown_remote, ref_target_summary, remote_ref_state_label, RefSummaryLine, RefTarget, RemoteRefState};

fn entries(changes: &[ModifiedChange]) -> Vec<(u64, Vec<usize>, Vec<usize>)> {
    changes.iter().map(|m| (m.change_id, m.added_commits.clone(), m.removed_commits.clone())).collect()
}

// J=0 (change 10), X=1 and Y=2 (both change 20), children of J
fn rewritten_change() -> CommitGraph {
    CommitGraph::new(vec![vec![], vec![0], vec![0]], vec![10, 20, 20]).unwrap()
}

#[test]
fn op_diff_of_rewritten_change() {
    let g = rewritten_change();
    let changes = compute_operation_commits_diff(&g, &vec![1], &vec![2]);
    assert_eq!(entries(&changes), vec![(20, vec![2], vec![1])]);
    assert_eq!(select_change_diff(&changes[0]), ChangeDiff::Interdiff { removed: 1, added: 2 });
}

#[test]
fn op_diff_is_symmetric() {
    let g = rewritten_change();
    let forward = compute_operation_commits_diff(&g, &vec![1], &vec![2]);
    let backward = compute_operation_commits_diff(&g, &vec![2], &vec![1]);
    assert_eq!(entries(&backward), vec![(20, vec![1], vec![2])]);
    assert_eq!(forward[0].added_commits, backward[0].removed_commits);
    assert_eq!(forward[0].removed_commits, backward[0].added_commits);
}

// J=0 (1), A=1 (2), B=2 (3) on A, C=3 (2) on J, D=4 (4) on C
fn stack() -> CommitGraph {
    CommitGraph::new(vec![vec![], vec![0], vec![1], vec![0], vec![3]], vec![1, 2, 3, 2, 4]).unwrap()
}

#[test]
fn op_diff_groups_by_change_and_covers_everything() {
    let g = stack();
    // from: heads B; to: heads D
    let changes = compute_operation_commits_diff(&g, &vec![2], &vec![4]);
    assert_eq!(entries(&changes), vec![(4, vec![4], vec![]), (2, vec![3], vec![1]), (3, vec![], vec![2])]);
    for c in [1usize, 2, 3, 4] {
        let count: usize = changes
            .iter()
            .map(|m| m.added_commits.iter().filter(|&&x| x == c).count() + m.removed_commits.iter().filter(|&&x| x == c).count())
            .sum();
        assert_eq!(count, 1);
    }
    assert!(changes.iter().all(|m| !m.added_commits.contains(&0) && !m.removed_commits.contains(&0)));
}

#[test]
fn op_diff_of_same_heads_is_empty() {
    let g = stack();
    assert!(compute_operation_commits_diff(&g, &vec![2, 4], &vec![4, 2]).is_empty());
    let graph = op_diff_graph(&g, &vec![4], &vec![4]);
    assert!(graph.changes.is_empty());
    assert_eq!(graph.order, Some(vec![]));
}

#[test]
fn op_diff_graph_orders_children_first() {
    let g = stack();
    let graph = op_diff_graph(&g, &vec![0], &vec![2, 4]);
    // added: D(4), C(2), B(3), A(2); changes in order 4, 2, 3
    assert_eq!(entries(&graph.changes), vec![(4, vec![4], vec![]), (2, vec![3, 1], vec![]), (3, vec![2], vec![])]);
    // change 4 sits on change 2; change 2's added commits have parent J only; change 3 sits on change 2 once
    assert_eq!(graph.parents, vec![vec![1], vec![], vec![1]]);
    let order = graph.order.unwrap();
    assert_eq!(order.len(), 3);
    let pos = |i: usize| order.iter().position(|&x| x == i).unwrap();
    assert!(pos(0) < pos(1));
    assert!(pos(2) < pos(1));
}

#[test]
fn parent_changes_are_listed_once() {
    // J=0 (1), A=1 (2) on J, B=2 (3) and C=3 (3) both on A
    let g = CommitGraph::new(vec![vec![], vec![0], vec![1], vec![1]], vec![1, 2, 3, 3]).unwrap();
    let graph = op_diff_graph(&g, &vec![0], &vec![2, 3]);
    assert_eq!(entries(&graph.changes), vec![(3, vec![3, 2], vec![]), (2, vec![1], vec![])]);
    assert_eq!(graph.parents, vec![vec![1], vec![]]);
    assert_eq!(graph.order, Some(vec![0, 1]));
}

#[test]
fn changes_in_a_cycle_have_no_order() {
    assert_eq!(order_changes(&vec![vec![1], vec![0]]), None);
    assert_eq!(order_changes(&vec![vec![1], vec![]]), Some(vec![0, 1]));
}

#[test]
fn change_diff_selection() {
    let m = |a: Vec<usize>, r: Vec<usize>| ModifiedChange { change_id: 1, added_commits: a, removed_commits: r };
    assert_eq!(select_change_diff(&m(vec![3], vec![])), ChangeDiff::AddedPatch(3));
    assert_eq!(select_change_diff(&m(vec![], vec![4])), ChangeDiff::RemovedPatch(4));
    assert_eq!(select_change_diff(&m(vec![3, 5], vec![4])), ChangeDiff::SummaryOnly);
    assert_eq!(select_change_diff(&m(vec![3, 5], vec![4, 6])), ChangeDiff::SummaryOnly);
    assert_eq!(select_change_diff(&m(vec![3], vec![4, 6])), ChangeDiff::SummaryOnly);
    assert_eq!(select_change_diff(&m(vec![], vec![])), ChangeDiff::SummaryOnly);
}

#[test]
fn ref_target_summaries() {
    assert_eq!(ref_target_summary(&RefTarget::Absent), vec![RefSummaryLine::Absent]);
    assert_eq!(ref_target_summary(&RefTarget::Normal(7)), vec![RefSummaryLine::Normal(7)]);
    let conflict = RefTarget::Conflict { added: vec![1, 2], removed: vec![3] };
    assert_eq!(
        ref_target_summary(&conflict),
        vec![RefSummaryLine::Added(1), RefSummaryLine::Added(2), RefSummaryLine::Removed(3)]
    );
    assert!(!is_shown_remote(&"git".to_string()));
    assert!(is_shown_remote(&"origin".to_string()));
    assert_eq!(remote_ref_state_label(RemoteRefState::Tracking), "tracked");
    assert_eq!(remote_ref_state_label(RemoteRefState::New), "untracked");
}

fn op_args(operation: Option<&str>, from: Option<&str>, to: Option<&str>) -> OperationDiffArgs {
    OperationDiffArgs {
        operation: operation.map(|s| s.to_string()),
        from: from.map(|s| s.to_string()),
        to: to.map(|s| s.to_string()),
        no_graph: false,
        patch: false,
    }
}

#[test]
fn operation_endpoint_selection() {
    let head = "@".to_string();
    match operation_endpoints(&op_args(None, Some("a"), None), &head) {
        OpEndpoints::Between { from, to } => assert_eq!((from.as_str(), to.as_str()), ("a", "@")),
        OpEndpoints::ParentsOf(_) => panic!("expected two operations"),
    }
    match operation_endpoints(&op_args(Some("x"), None, Some("b")), &head) {
        OpEndpoints::Between { from, to } => assert_eq!((from.as_str(), to.as_str()), ("@", "b")),
        OpEndpoints::ParentsOf(_) => panic!("expected two operations"),
    }
    match operation_endpoints(&op_args(Some("x"), None, None), &head) {
        OpEndpoints::ParentsOf(op) => assert_eq!(op, "x"),
        OpEndpoints::Between { .. } => panic!("expected one operation"),
    }
    match operation_endpoints(&op_args(None, None, None), &head) {
        OpEndpoints::ParentsOf(op) => assert_eq!(op, "@"),
        OpEndpoints::Between { .. } => panic!("expected one operation"),
    }
    assert_eq!(check_op_parents(0), Err(OpDiffError::OperationHasNoParents));
    assert_eq!(check_op_parents(2), Ok(()));
}

fn rebase_args(branch: usize, source: usize, revisions: usize, skip_empty: bool, deprecated: bool) -> RebaseArgs {
    let names = |n: usize| (0..n).map(|i| format!("r{i}")).collect::<Vec<_>>();
    RebaseArgs {
        branch: names(branch),
        source: names(source),
        revisions: names(revisions),
        destination: names(1),
        insert_after: vec![],
        insert_before: vec![],
        skip_empty,
        allow_large_revsets: deprecated,
    }
}

#[test]
fn rebase_mode_selection() {
    assert_eq!(rebase_mode(&rebase_args(0, 0, 1, false, true)), Err(RebaseError::DeprecatedFlag));
    assert_eq!(rebase_mode(&rebase_args(0, 0, 1, true, false)), Err(RebaseError::FlagConflict));
    assert_eq!(rebase_mode(&rebase_args(0, 0, 1, false, false)), Ok((RebaseMode::Revisions, EmptyBehaviour::Keep)));
    assert_eq!(rebase_mode(&rebase_args(1, 1, 0, true, false)), Ok((RebaseMode::Source, EmptyBehaviour::AbandonNewlyEmpty)));
    assert_eq!(
        rebase_mode(&rebase_args(1, 0, 0, false, false)),
        Ok((RebaseMode::Branch { default_to_working_copy: false }, EmptyBehaviour::Keep))
    );
    assert_eq!(
        rebase_mode(&rebase_args(0, 0, 0, false, false)),
        Ok((RebaseMode::Branch { default_to_working_copy: true }, EmptyBehaviour::Keep))
    );
}
