use jj_rewrite::destination::{check_rebase_destinations, compute_destination, ensure_no_commit_loop, RebaseError};
use jj_rewrite::graph::CommitGraph;
use jj_rewrite::plan::{plan_move_commits, MoveRequest};
use jj_rewrite::rebase::{
    branch_roots, move_commits, rebase_branch, rebase_descendants, rebase_revisions, MoveCommits, MoveCommitsStats,
    RewriteOutcome,
};

fn graph(parents: Vec<Vec<usize>>) -> CommitGraph {
    let ids = (0..parents.len() as u64).map(|i| 100 + i).collect();
    CommitGraph::new(parents, ids).expect("parents come before children")
}

/// Carries out a move the way the store does: a commit is rewritten when its
/// planned parents differ from its current ones or one of them was rewritten.
/// Returns the counts and the parents of every commit afterwards.
fn run(g: &CommitGraph, mut m: MoveCommits) -> (MoveCommitsStats, Vec<Vec<usize>>) {
    let mut current = g.parents.clone();
    let mut rewritten = vec![false; g.parents.len()];
    while let Some((c, ps)) = m.next_rewrite() {
        let changed = ps != current[c] || ps.iter().any(|&p| rewritten[p]);
        if changed {
            current[c] = ps;
            rewritten[c] = true;
        }
        let outcome = m.record_rewrite(changed, false);
        assert_eq!(outcome == RewriteOutcome::Skipped, !changed);
    }
    assert!(m.is_done());
    (m.stats, current)
}

fn stats(targets: u32, descendants: u32, skipped: u32, abandoned: u32) -> MoveCommitsStats {
    MoveCommitsStats {
        num_rebased_targets: targets,
        num_rebased_descendants: descendants,
        num_skipped_rebases: skipped,
        num_abandoned: abandoned,
    }
}

// J=0 K=1 L=2 M=3 N=4 O=5: J<-K<-L, J<-M<-N, J<-O
fn jklmno() -> CommitGraph {
    graph(vec![vec![], vec![0], vec![1], vec![0], vec![3], vec![0]])
}

#[test]
fn linear_rebase_source_onto_other_branch() {
    let g = jklmno();
    let none = vec![false; 6];
    let m = rebase_descendants(&g, &vec![5], &vec![3], &none).unwrap().unwrap();
    let (s, after) = run(&g, m);
    assert_eq!(s, stats(2, 0, 0, 0));
    assert_eq!(after[3], vec![5]);
    assert_eq!(after[4], vec![3]);
    assert_eq!(after[1], vec![0]);
    assert_eq!(after[2], vec![1]);
    assert_eq!(after[5], vec![0]);
}

#[test]
fn branch_rebase_moves_shared_prefix() {
    // J=0 K=1 L=2 M=3 N=4 O=5: J<-K<-L, K<-M<-N, J<-O
    let g = graph(vec![vec![], vec![0], vec![1], vec![1], vec![3], vec![0]]);
    assert_eq!(branch_roots(&g, &vec![5], &vec![2]), vec![1]);
    let none = vec![false; 6];
    let m = rebase_branch(&g, &vec![5], &vec![2], &none).unwrap().unwrap();
    let (s, after) = run(&g, m);
    assert_eq!(after[1], vec![5]);
    assert_eq!(after[2], vec![1]);
    assert_eq!(after[3], vec![1]);
    assert_eq!(after[4], vec![3]);
    assert_eq!(s.num_rebased_targets + s.num_rebased_descendants, 4);
    assert_eq!(s, stats(4, 0, 0, 0));
}

#[test]
fn branch_rebase_of_linear_input() {
    let g = jklmno();
    assert_eq!(branch_roots(&g, &vec![5], &vec![2]), vec![1]);
    let none = vec![false; 6];
    let m = rebase_branch(&g, &vec![5], &vec![2], &none).unwrap().unwrap();
    let (s, after) = run(&g, m);
    assert_eq!(after[1], vec![5]);
    assert_eq!(after[2], vec![1]);
    assert_eq!(after[3], vec![0]);
    assert_eq!(s, stats(2, 0, 0, 0));
}

#[test]
fn single_revision_fills_the_hole() {
    // J=0 K=1 L=2 M=3: J<-K<-L, J<-M
    let g = graph(vec![vec![], vec![0], vec![1], vec![0]]);
    let none = vec![false; 4];
    let m = rebase_revisions(&g, &vec![1], &vec![3], &vec![], &vec![], &none).unwrap().unwrap();
    let (s, after) = run(&g, m);
    assert_eq!(after[1], vec![3]);
    assert_eq!(after[2], vec![0]);
    assert_eq!(after[3], vec![0]);
    assert_eq!(s, stats(1, 1, 0, 0));
}

#[test]
fn insert_before_itself_is_in_place() {
    // J=0 A=1 B=2: J<-A<-B
    let g = graph(vec![vec![], vec![0], vec![1]]);
    let req = MoveRequest { new_parent_ids: vec![1], new_children: vec![1], targets: vec![1], target_roots: vec![] };
    let plan = plan_move_commits(&g, &req);
    assert_eq!(plan.new_parents[1], vec![0]);
    assert_eq!(plan.new_parents[2], vec![1]);
    let m = move_commits(&g, &req).unwrap();
    let (s, after) = run(&g, m);
    assert!(s.num_skipped_rebases >= 1);
    assert_eq!(s, stats(0, 0, 2, 0));
    assert_eq!(after, g.parents);
}

#[test]
fn insert_before_itself_is_refused_by_loop_check() {
    let g = graph(vec![vec![], vec![0], vec![1]]);
    let none = vec![false; 3];
    let r = compute_destination(&g, &vec![1], &vec![], &vec![], &vec![1], false, &none);
    assert_eq!(r, Err(RebaseError::CycleWouldBeCreated(1)));
}

#[test]
fn empty_targets_do_nothing() {
    let g = jklmno();
    let req = MoveRequest { new_parent_ids: vec![5], new_children: vec![], targets: vec![], target_roots: vec![] };
    let m = move_commits(&g, &req).unwrap();
    assert!(m.is_done());
    assert_eq!(m.stats, stats(0, 0, 0, 0));
    assert!(m.plan.visit.iter().all(|v| !v));
    let none = vec![false; 6];
    assert!(rebase_revisions(&g, &vec![], &vec![5], &vec![], &vec![], &none).unwrap().is_none());
    assert!(rebase_descendants(&g, &vec![5], &vec![], &none).unwrap().is_none());
}

#[test]
fn rebasing_in_place_skips_everything() {
    let g = jklmno();
    let none = vec![false; 6];
    let m = rebase_descendants(&g, &vec![0], &vec![3], &none).unwrap().unwrap();
    let visited = m.order.len() as u32;
    let (s, after) = run(&g, m);
    assert_eq!(s, stats(0, 0, visited, 0));
    assert!(s.num_skipped_rebases >= 2);
    assert_eq!(after, g.parents);
}

#[test]
fn move_result_is_acyclic_and_ordered() {
    let g = jklmno();
    let req = MoveRequest { new_parent_ids: vec![4], new_children: vec![], targets: vec![1, 2], target_roots: vec![] };
    let m = move_commits(&g, &req).unwrap();
    let pos = |c: usize| m.order.iter().position(|&x| x == c).unwrap();
    for &c in m.order.iter() {
        for &p in m.plan.new_parents[c].iter() {
            if m.plan.visit[p] {
                assert!(pos(p) < pos(c));
            }
        }
    }
    assert_eq!(m.plan.new_parents[1], vec![4]);
    assert_eq!(m.plan.new_parents[2], vec![1]);
}

#[test]
fn unrelated_commits_keep_their_parents() {
    let g = jklmno();
    let req = MoveRequest { new_parent_ids: vec![5], new_children: vec![], targets: vec![3, 4], target_roots: vec![] };
    let plan = plan_move_commits(&g, &req);
    for c in [0usize, 1, 2, 5] {
        assert_eq!(plan.new_parents[c], g.parents[c]);
        assert!(!plan.visit[c]);
    }
}

#[test]
fn change_ids_stay_with_rewritten_commits() {
    let g = jklmno();
    let none = vec![false; 6];
    let m = rebase_descendants(&g, &vec![5], &vec![3], &none).unwrap().unwrap();
    let order = m.order.clone();
    let (s, _) = run(&g, m);
    assert_eq!(s.num_rebased_targets, 2);
    // a rewritten commit keeps its slot, and with it its change identity
    for &c in order.iter() {
        assert_eq!(g.change_ids[c], 100 + c as u64);
    }
}

#[test]
fn insert_after_with_children() {
    // J=0 A=1 B=2 X=3: J<-A<-B, J<-X; insert X after A
    let g = graph(vec![vec![], vec![0], vec![1], vec![0]]);
    let none = vec![false; 4];
    let (ps, cs) = compute_destination(&g, &vec![3], &vec![], &vec![1], &vec![], false, &none).unwrap();
    assert_eq!(ps, vec![1]);
    assert_eq!(cs, vec![2]);
    let m = rebase_revisions(&g, &vec![3], &vec![], &vec![1], &vec![], &none).unwrap().unwrap();
    let (s, after) = run(&g, m);
    assert_eq!(after[3], vec![1]);
    assert_eq!(after[2], vec![3]);
    assert_eq!(s, stats(1, 1, 0, 0));
}

#[test]
fn insert_after_itself_uses_external_children() {
    // J=0 A=1 B=2 C=3: J<-A<-B<-C; move A after A
    let g = graph(vec![vec![], vec![0], vec![1], vec![2]]);
    let req = MoveRequest { new_parent_ids: vec![1], new_children: vec![1], targets: vec![1], target_roots: vec![] };
    let plan = plan_move_commits(&g, &req);
    assert_eq!(plan.new_parents[1], vec![0]);
    assert_eq!(plan.new_parents[2], vec![1]);
    assert_eq!(plan.new_parents[3], vec![2]);
}

#[test]
fn insert_before_takes_siblings_as_parents() {
    // J=0 A=1 B=2 X=3: J<-A<-B, J<-X; insert X before A
    let g = graph(vec![vec![], vec![0], vec![1], vec![0]]);
    let none = vec![false; 4];
    // the siblings of A include A itself, which the loop check refuses
    let r = compute_destination(&g, &vec![3], &vec![], &vec![], &vec![1], false, &none);
    assert_eq!(r, Err(RebaseError::CycleWouldBeCreated(1)));
    // given both insertion points, X goes between J and A
    let (ps, cs) = compute_destination(&g, &vec![3], &vec![], &vec![0], &vec![1], false, &none).unwrap();
    assert_eq!((ps, cs), (vec![0], vec![1]));
    let m = rebase_revisions(&g, &vec![3], &vec![], &vec![0], &vec![1], &none).unwrap().unwrap();
    let (s, after) = run(&g, m);
    assert_eq!(after[1], vec![3]);
    assert_eq!(after[3], vec![0]);
    assert_eq!(after[2], vec![1]);
    assert_eq!(s, stats(0, 2, 1, 0));
}

#[test]
fn rebase_onto_itself_is_refused() {
    let g = jklmno();
    let none = vec![false; 6];
    let r = compute_destination(&g, &vec![4, 3], &vec![3], &vec![], &vec![], false, &none);
    assert_eq!(r, Err(RebaseError::CannotRebaseOntoSelf(3)));
    let allowed = compute_destination(&g, &vec![4, 3], &vec![3], &vec![], &vec![], true, &none);
    assert_eq!(allowed, Ok((vec![3], vec![])));
}

#[test]
fn new_children_below_new_parents_are_refused() {
    let g = jklmno();
    let none = vec![false; 6];
    // insert O after L and before K: L descends from K
    let r = compute_destination(&g, &vec![5], &vec![], &vec![2], &vec![1], false, &none);
    assert_eq!(r, Err(RebaseError::CycleWouldBeCreated(2)));
    assert_eq!(ensure_no_commit_loop(&g, &vec![1], &vec![2]), Err(RebaseError::CycleWouldBeCreated(2)));
    assert_eq!(ensure_no_commit_loop(&g, &vec![2], &vec![1]), Ok(()));
}

#[test]
fn immutable_new_child_is_refused() {
    let g = jklmno();
    let mut immutable = vec![false; 6];
    immutable[2] = true;
    let r = compute_destination(&g, &vec![5], &vec![], &vec![1], &vec![], false, &immutable);
    assert_eq!(r, Err(RebaseError::NotRewritable(2)));
    let r = rebase_revisions(&g, &vec![2], &vec![5], &vec![], &vec![], &immutable);
    assert!(matches!(r, Err(RebaseError::NotRewritable(2))));
    let r = rebase_descendants(&g, &vec![5], &vec![2], &immutable);
    assert!(matches!(r, Err(RebaseError::NotRewritable(2))));
}

#[test]
fn rebase_onto_descendant_is_refused() {
    let g = jklmno();
    assert_eq!(check_rebase_destinations(&g, &vec![5, 2], 1), Err(RebaseError::CannotRebaseOntoDescendant(1, 2)));
    assert_eq!(check_rebase_destinations(&g, &vec![5], 1), Ok(()));
    let none = vec![false; 6];
    let r = rebase_descendants(&g, &vec![4], &vec![3], &none);
    assert!(matches!(r, Err(RebaseError::CannotRebaseOntoDescendant(3, 4))));
}

#[test]
fn planned_cycle_is_refused() {
    // J=0 K=1 L=2: J<-K<-L; K onto L with J as new child
    let g = graph(vec![vec![], vec![0], vec![1]]);
    let req = MoveRequest { new_parent_ids: vec![2], new_children: vec![0], targets: vec![1], target_roots: vec![] };
    assert!(matches!(move_commits(&g, &req), Err(RebaseError::CycleInPlan)));
}

#[test]
fn malformed_graph_is_refused() {
    assert!(CommitGraph::new(vec![vec![1], vec![]], vec![1, 2]).is_none());
    assert!(CommitGraph::new(vec![vec![]], vec![1, 2]).is_none());
    let g = graph(vec![vec![], vec![0]]);
    assert!(g.has_all(&vec![0, 1]));
    assert!(!g.has_all(&vec![2]));
}

#[test]
fn merge_child_of_two_targets() {
    // J=0 A=1 B=2 C=3: J<-A, J<-B, C has parents A and B; move A and B onto J
    let g = graph(vec![vec![], vec![0], vec![0], vec![1, 2]]);
    let req = MoveRequest { new_parent_ids: vec![0], new_children: vec![], targets: vec![1, 2], target_roots: vec![] };
    let plan = plan_move_commits(&g, &req);
    // C is moved to J through both of its parents
    assert_eq!(plan.new_parents[3], vec![0, 0]);
    let req = MoveRequest { new_parent_ids: vec![0], new_children: vec![], targets: vec![1, 2], target_roots: vec![1] };
    let plan = plan_move_commits(&g, &req);
    assert_eq!(plan.new_parents[1], vec![0]);
    // B is not a root here: its parent J is kept
    assert_eq!(plan.new_parents[2], vec![0]);
}

#[test]
fn descendant_of_target_skips_to_external_parents() {
    // J=0 A=1 B=2 C=3 P=4: J<-A<-B<-C, J<-P; move A and B onto P
    let g = graph(vec![vec![], vec![0], vec![1], vec![2], vec![0]]);
    let req = MoveRequest { new_parent_ids: vec![4], new_children: vec![], targets: vec![1, 2], target_roots: vec![] };
    let plan = plan_move_commits(&g, &req);
    assert_eq!(plan.new_parents[1], vec![4]);
    assert_eq!(plan.new_parents[2], vec![1]);
    assert_eq!(plan.new_parents[3], vec![0]);
}

#[test]
fn repeated_rebases_find_everything_in_place() {
    // after `-s M -d O`: J=0 K=1 L=2 O=3 M'=4 N'=5
    let g = graph(vec![vec![], vec![0], vec![1], vec![0], vec![3], vec![4]]);
    let none = vec![false; 6];
    let m = rebase_descendants(&g, &vec![3], &vec![4], &none).unwrap().unwrap();
    let (s, after) = run(&g, m);
    assert_eq!(s, stats(0, 0, 2, 0));
    assert_eq!(after, g.parents);
    // after `-r K -d M`: J=0 M=1 K'=2 L'=3
    let g = graph(vec![vec![], vec![0], vec![1], vec![0]]);
    let none = vec![false; 4];
    let m = rebase_revisions(&g, &vec![2], &vec![1], &vec![], &vec![], &none).unwrap().unwrap();
    let (s, after) = run(&g, m);
    assert_eq!(s, stats(0, 0, 1, 0));
    assert_eq!(after, g.parents);
}
