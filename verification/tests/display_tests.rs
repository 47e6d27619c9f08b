//! Scenario tests for the visibility selector and the tree materializer.

use todoofus::select::{display_relevant, select_relevant};
use todoofus::todos::{TodoForDisplay, TodoInfo, TodoRelationRow, TodoRow};

const OLD: i64 = 1_000;
const RECENT: i64 = 2_000_000;
const CUTOFF: i64 = 1_000_000;

fn row(id: i64, description: &str, completed: bool, created_at: i64) -> TodoRow {
    TodoRow::new(id, description.to_owned(), completed, created_at)
}

fn edge(parent: i64, child: i64) -> TodoRelationRow {
    TodoRelationRow::new(parent, child)
}

fn ids(nodes: &[TodoForDisplay]) -> Vec<i64> {
    nodes.iter().map(|n| n.id).collect()
}

fn same_tree(a: &TodoForDisplay, b: &TodoForDisplay) -> bool {
    a.id == b.id
        && a.description == b.description
        && a.completed == b.completed
        && a.created_at == b.created_at
        && a.children.len() == b.children.len()
        && a.children
            .iter()
            .zip(b.children.iter())
            .all(|(x, y)| same_tree(x, y))
}

#[test]
fn scenario_parent_pulled_in_by_incomplete_child() {
    // Item A: complete and old; item B: child of A, incomplete.
    let todos = vec![row(1, "a", true, OLD), row(2, "b", false, OLD)];
    let edges = vec![edge(1, 2)];
    let (rows, kept) = select_relevant(todos, edges, CUTOFF);
    let row_ids: Vec<i64> = rows.iter().map(|t| t.id()).collect();
    assert_eq!(row_ids, vec![1, 2]);
    assert_eq!(kept.len(), 1);
    assert_eq!(kept[0].parent_id(), 1);
    assert_eq!(kept[0].child_id(), 2);

    let forest = TodoInfo::new(rows, kept).into_display().unwrap();
    assert_eq!(ids(&forest), vec![1]);
    assert_eq!(ids(&forest[0].children), vec![2]);
    assert!(forest[0].children[0].children.is_empty());
}

#[test]
fn scenario_complete_old_unrelated_item_is_excluded() {
    let todos = vec![row(7, "c", true, OLD)];
    let edges = vec![];
    let (rows, kept) = select_relevant(todos, edges, CUTOFF);
    assert!(rows.is_empty());
    assert!(kept.is_empty());
    let forest = TodoInfo::new(rows, kept).into_display().unwrap();
    assert!(forest.is_empty());
}

#[test]
fn scenario_chain_pulled_in_by_deep_incomplete_item() {
    // A -> B -> C, A and B complete and old, C incomplete.
    let todos = vec![
        row(1, "a", true, OLD),
        row(2, "b", true, OLD),
        row(3, "c", false, OLD),
    ];
    let edges = vec![edge(1, 2), edge(2, 3)];
    let (rows, kept) = select_relevant(todos, edges, CUTOFF);
    let row_ids: Vec<i64> = rows.iter().map(|t| t.id()).collect();
    assert_eq!(row_ids, vec![1, 2, 3]);
    assert_eq!(kept.len(), 2);

    let forest = TodoInfo::new(rows, kept).into_display().unwrap();
    assert_eq!(ids(&forest), vec![1]);
    assert_eq!(ids(&forest[0].children), vec![2]);
    assert_eq!(ids(&forest[0].children[0].children), vec![3]);
}

#[test]
fn scenario_roots_ordered_most_recent_first() {
    // R2 created earlier, R1 later, both incomplete.
    let todos = vec![row(10, "r2", false, 500), row(11, "r1", false, 900)];
    let edges = vec![];
    let forest = display_relevant(todos, edges, CUTOFF).unwrap();
    assert_eq!(ids(&forest), vec![11, 10]);
}

#[test]
fn children_ordered_most_recent_first_with_id_tiebreak() {
    let todos = vec![
        row(1, "root", false, 100),
        row(2, "older child", false, 200),
        row(3, "newer child", false, 400),
        row(4, "tied with 5", false, 300),
        row(5, "tied with 4", false, 300),
    ];
    let edges = vec![edge(1, 2), edge(1, 3), edge(1, 4), edge(1, 5)];
    let forest = display_relevant(todos, edges, CUTOFF).unwrap();
    assert_eq!(ids(&forest), vec![1]);
    // 400 first, then the tie at 300 broken by the larger identifier, then 200.
    assert_eq!(ids(&forest[0].children), vec![3, 5, 4, 2]);
}

#[test]
fn recent_item_is_relevant_even_when_complete() {
    let todos = vec![row(1, "done but fresh", true, RECENT)];
    let edges = vec![];
    let (rows, _) = select_relevant(todos, edges, CUTOFF);
    assert_eq!(rows.len(), 1);
    assert_eq!(rows[0].id(), 1);
}

#[test]
fn closure_walks_down_from_relevant_parent() {
    // The parent is relevant (incomplete); the complete old child follows it.
    let todos = vec![row(1, "p", false, OLD), row(2, "c", true, OLD)];
    let edges = vec![edge(1, 2)];
    let (rows, kept) = select_relevant(todos, edges, CUTOFF);
    let row_ids: Vec<i64> = rows.iter().map(|t| t.id()).collect();
    assert_eq!(row_ids, vec![1, 2]);
    assert_eq!(kept.len(), 1);
}

#[test]
fn irrelevant_branch_is_cut_out() {
    // Two separate families: one with an incomplete member, one all complete
    // and old. Only the first survives, with exactly its own edge.
    let todos = vec![
        row(1, "keep root", true, OLD),
        row(2, "keep child", false, OLD),
        row(3, "drop root", true, OLD),
        row(4, "drop child", true, OLD),
    ];
    let edges = vec![edge(1, 2), edge(3, 4)];
    let (rows, kept) = select_relevant(todos, edges, CUTOFF);
    let row_ids: Vec<i64> = rows.iter().map(|t| t.id()).collect();
    assert_eq!(row_ids, vec![1, 2]);
    assert_eq!(kept.len(), 1);
    assert_eq!(kept[0].parent_id(), 1);
}

#[test]
fn empty_snapshot_gives_empty_forest() {
    let forest = display_relevant(Vec::new(), Vec::new(), CUTOFF).unwrap();
    assert!(forest.is_empty());
}

#[test]
fn materialize_twice_is_structurally_identical() {
    let make = || {
        let todos = vec![
            row(1, "a", false, 100),
            row(2, "b", false, 300),
            row(3, "c", false, 200),
        ];
        let edges = vec![edge(1, 2), edge(1, 3)];
        TodoInfo::new(todos, edges)
    };
    let f1 = make().into_display().unwrap();
    let f2 = make().into_display().unwrap();
    assert_eq!(f1.len(), f2.len());
    assert!(f1.iter().zip(f2.iter()).all(|(a, b)| same_tree(a, b)));
}

#[test]
fn edge_to_missing_item_is_reported() {
    let todos = vec![row(1, "a", false, OLD)];
    let edges = vec![edge(1, 99)];
    let err = TodoInfo::new(todos, edges).into_display().unwrap_err();
    assert_eq!(err.parent_id, 1);
    assert_eq!(err.child_id, 99);
    assert!(!err.message().is_empty());
}

fn collect_ids(nodes: &[TodoForDisplay], out: &mut Vec<i64>) {
    for n in nodes {
        out.push(n.id);
        collect_ids(&n.children, out);
    }
}

#[test]
fn every_relevant_item_appears_exactly_once() {
    // Two trees and a lone root, all relevant.
    let todos = vec![
        row(1, "a", false, 100),
        row(2, "b", false, 200),
        row(3, "c", false, 300),
        row(4, "d", false, 400),
        row(5, "e", false, 500),
        row(6, "f", false, 600),
    ];
    let edges = vec![edge(1, 2), edge(2, 3), edge(1, 4), edge(5, 6)];
    let forest = display_relevant(todos, edges, CUTOFF).unwrap();
    let mut seen = Vec::new();
    collect_ids(&forest, &mut seen);
    seen.sort();
    assert_eq!(seen, vec![1, 2, 3, 4, 5, 6]);
}

#[test]
fn display_node_carries_item_attributes() {
    let todos = vec![row(42, "hello", false, 777)];
    let forest = display_relevant(todos, Vec::new(), CUTOFF).unwrap();
    assert_eq!(forest.len(), 1);
    assert_eq!(forest[0].id, 42);
    assert_eq!(forest[0].description, "hello");
    assert!(!forest[0].completed);
    assert_eq!(forest[0].created_at, 777);
}
