use join_planner::graph::Graph;
use join_planner::planner::Planner;
use join_planner::relation::{Relation, RelationError};

fn names(cols: &[&str]) -> Vec<String> {
    cols.iter().map(|c| c.to_string()).collect()
}

fn build(cols: &[&str], rows: &[&[i64]]) -> Relation {
    Relation::new_with_data(names(cols), rows.iter().map(|r| r.to_vec()).collect()).unwrap()
}

/// Rows as (column name, value) lists sorted by name, then sorted as a whole.
fn by_name(rel: &Relation) -> Vec<Vec<(String, i64)>> {
    let mut out: Vec<Vec<(String, i64)>> = rel
        .data()
        .iter()
        .map(|row| {
            let mut r: Vec<(String, i64)> =
                rel.col_names().iter().cloned().zip(row.iter().cloned()).collect();
            r.sort();
            r
        })
        .collect();
    out.sort();
    out
}

fn r_rel() -> Relation {
    Relation::new(names(&["a", "b"]))
        .row(vec![1, 2])
        .unwrap()
        .row(vec![3, 4])
        .unwrap()
        .row(vec![5, 6])
        .unwrap()
}

fn s_rel() -> Relation {
    build(&["b", "c"], &[&[2, 10], &[4, 20], &[6, 30]])
}

fn t_rel() -> Relation {
    build(&["c", "d"], &[&[10, 100], &[20, 200], &[30, 300]])
}

#[test]
fn join_on_shared_column() {
    let j = r_rel().join(&s_rel());
    assert_eq!(j.col_names(), &names(&["a", "b", "c"]));
    assert_eq!(j.data(), &vec![vec![1, 2, 10], vec![3, 4, 20], vec![5, 6, 30]]);
}

#[test]
fn join_drops_unmatched_rows() {
    let r = build(&["a", "b"], &[&[1, 2], &[3, 4], &[5, 7]]);
    let s = build(&["b", "c"], &[&[2, 10], &[9, 90], &[4, 20]]);
    let j = r.join(&s);
    assert_eq!(j.col_names(), &names(&["a", "b", "c"]));
    assert_eq!(j.data(), &vec![vec![1, 2, 10], vec![3, 4, 20]]);
}

#[test]
fn join_output_order_follows_right_then_left() {
    let r = build(&["k", "x"], &[&[1, 10], &[2, 20], &[1, 11]]);
    let s = build(&["y", "k"], &[&[7, 1], &[8, 2]]);
    let j = r.join(&s);
    assert_eq!(j.col_names(), &names(&["k", "x", "y"]));
    assert_eq!(j.data(), &vec![vec![1, 10, 7], vec![1, 11, 7], vec![2, 20, 8]]);
}

#[test]
fn join_without_shared_columns_is_cross_product() {
    let r = build(&["a"], &[&[1], &[2], &[3]]);
    let s = build(&["b", "c"], &[&[10, 11], &[20, 21]]);
    let j = r.join(&s);
    assert_eq!(j.col_names(), &names(&["a", "b", "c"]));
    assert_eq!(j.data().len(), 6);
    assert_eq!(
        j.data(),
        &vec![
            vec![1, 10, 11],
            vec![2, 10, 11],
            vec![3, 10, 11],
            vec![1, 20, 21],
            vec![2, 20, 21],
            vec![3, 20, 21]
        ]
    );
}

#[test]
fn join_many_to_many_key() {
    let r = build(&["k", "x"], &[&[1, 1], &[1, 2], &[2, 3]]);
    let s = build(&["k", "y"], &[&[1, 10], &[1, 20], &[1, 30], &[3, 40]]);
    let j = r.join(&s);
    let with_key_one = j.data().iter().filter(|row| row[0] == 1).count();
    assert_eq!(with_key_one, 2 * 3);
    assert_eq!(j.data().len(), 6);
}

#[test]
fn join_on_two_shared_columns() {
    let r = build(&["a", "b", "c"], &[&[1, 2, 3], &[1, 5, 6]]);
    let s = build(&["b", "d", "a"], &[&[2, 9, 1], &[5, 8, 2]]);
    let j = r.join(&s);
    assert_eq!(j.col_names(), &names(&["a", "b", "c", "d"]));
    assert_eq!(j.data(), &vec![vec![1, 2, 3, 9]]);
}

#[test]
fn joined_columns_have_no_duplicates() {
    let j = r_rel().join(&s_rel()).join(&t_rel()).join(&r_rel());
    assert_eq!(j.col_names(), &names(&["a", "b", "c", "d"]));
    assert_eq!(j.data().len(), 3);
}

#[test]
fn join_with_empty_side_is_empty() {
    let empty = Relation::new(names(&["b", "z"]));
    let j = r_rel().join(&empty);
    assert_eq!(j.col_names(), &names(&["a", "b", "z"]));
    assert!(j.data().is_empty());
    let j2 = empty.join(&r_rel());
    assert_eq!(j2.col_names(), &names(&["b", "z", "a"]));
    assert!(j2.data().is_empty());
}

#[test]
fn join_leaves_inputs_unchanged() {
    let r = r_rel();
    let s = s_rel();
    let _ = r.join(&s);
    assert_eq!(r.data(), r_rel().data());
    assert_eq!(s.col_names(), s_rel().col_names());
}

#[test]
fn fold_order_does_not_change_content() {
    let rts = r_rel().join(&t_rel()).join(&s_rel());
    let rst = r_rel().join(&s_rel()).join(&t_rel());
    assert_eq!(rts.col_names(), &names(&["a", "b", "c", "d"]));
    assert_eq!(rst.col_names(), &names(&["a", "b", "c", "d"]));
    assert_eq!(by_name(&rts), by_name(&rst));
    let expected: Vec<Vec<i64>> = vec![vec![1, 2, 10, 100], vec![3, 4, 20, 200], vec![5, 6, 30, 300]];
    let mut got = rst.data().clone();
    got.sort();
    assert_eq!(got, expected);
}

#[test]
fn construction_twice_gives_equal_relations() {
    let x = build(&["a", "b"], &[&[1, 2], &[3, 4]]);
    let y = build(&["a", "b"], &[&[1, 2], &[3, 4]]);
    assert_eq!(x.col_names(), y.col_names());
    assert_eq!(x.data(), y.data());
    assert_eq!(x.join(&s_rel()).data(), y.join(&s_rel()).data());
}

#[test]
fn new_with_data_rejects_misfit_row() {
    let r = Relation::new_with_data(names(&["a", "b"]), vec![vec![1, 2], vec![3], vec![4, 5, 6]]);
    assert_eq!(r.unwrap_err(), RelationError::ShapeMismatch { expected: 2, actual: 1 });
}

#[test]
fn row_rejects_misfit_row() {
    let r = Relation::new(names(&["a", "b"])).row(vec![1, 2, 3]);
    assert_eq!(r.unwrap_err(), RelationError::ShapeMismatch { expected: 2, actual: 3 });
}

#[test]
fn rows_replace_and_check() {
    let r = r_rel().rows(vec![vec![7, 8]]).unwrap();
    assert_eq!(r.data(), &vec![vec![7, 8]]);
    let e = r_rel().rows(vec![vec![7, 8], vec![]]);
    assert_eq!(e.unwrap_err(), RelationError::ShapeMismatch { expected: 2, actual: 0 });
}

#[test]
fn graph_edges_are_symmetric_and_grow() {
    let mut g = Graph::new();
    assert!(g.neighbours(0).is_empty());
    g.edge(3, 1);
    assert_eq!(g.neighbours(3), vec![1]);
    assert_eq!(g.neighbours(1), vec![3]);
    assert!(g.neighbours(0).is_empty());
    assert!(g.neighbours(2).is_empty());
    assert!(g.neighbours(9).is_empty());
    g.edge(1, 3);
    assert_eq!(g.neighbours(1), vec![3, 3]);
}

fn cols_of(plan: &[Relation]) -> Vec<Vec<String>> {
    plan.iter().map(|r| r.col_names().clone()).collect()
}

fn shares(a: &Relation, b: &Relation) -> bool {
    a.col_names().iter().any(|c| b.col_names().contains(c))
}

#[test]
fn plan_of_chain_follows_links() {
    let planner = Planner::new().join(r_rel()).join(t_rel()).join(s_rel());
    let plan = planner.plan();
    assert_eq!(plan.len(), 3);
    // From R the walk reaches S, then T through S.
    assert_eq!(
        cols_of(&plan),
        vec![names(&["a", "b"]), names(&["b", "c"]), names(&["c", "d"])]
    );
    let mut it = plan.into_iter();
    let mut acc = it.next().unwrap();
    for next in it {
        acc = acc.join(&next);
    }
    let mut got = acc.data().clone();
    got.sort();
    assert_eq!(got, vec![vec![1, 2, 10, 100], vec![3, 4, 20, 200], vec![5, 6, 30, 300]]);
}

#[test]
fn plan_is_permutation_and_valid() {
    let order = [4usize, 7, 0, 9, 2, 5, 1, 8, 3, 6];
    let mut planner = Planner::new();
    for &i in order.iter() {
        let a = format!("col_{}", i);
        let b = format!("col_{}", i + 1);
        let rows: Vec<Vec<i64>> = (0..10).map(|j| vec![j * 10i64.pow(i as u32), j * 10i64.pow(i as u32 + 1)]).collect();
        planner = planner.join(Relation::new_with_data(vec![a, b], rows).unwrap());
    }
    let plan = planner.plan();
    assert_eq!(plan.len(), 10);
    let mut seen: Vec<String> = plan.iter().map(|r| r.col_names()[0].clone()).collect();
    seen.sort();
    let mut all: Vec<String> = (0..10).map(|i| format!("col_{}", i)).collect();
    all.sort();
    assert_eq!(seen, all);
    for k in 1..plan.len() {
        assert!((0..k).any(|q| shares(&plan[q], &plan[k])));
    }
    let mut it = plan.into_iter();
    let mut acc = it.next().unwrap();
    for next in it {
        acc = acc.join(&next);
    }
    assert_eq!(acc.col_names().len(), 11);
    assert_eq!(acc.data().len(), 10);
}

#[test]
fn plan_groups_disconnected_relations() {
    let x = build(&["p"], &[&[1]]);
    let y = build(&["q"], &[&[2], &[3]]);
    let z = build(&["p", "r"], &[&[1, 5]]);
    let plan = Planner::new().join(x).join(y).join(z).plan();
    assert_eq!(cols_of(&plan), vec![names(&["p"]), names(&["p", "r"]), names(&["q"])]);
    let j = plan[0].join(&plan[1]).join(&plan[2]);
    assert_eq!(j.data(), &vec![vec![1, 5, 2], vec![1, 5, 3]]);
}

#[test]
fn plan_of_nothing_is_empty() {
    assert!(Planner::new().plan().is_empty());
}

#[test]
fn default_planner_is_empty() {
    let plan = Planner::default().join(s_rel()).plan();
    assert_eq!(cols_of(&plan), vec![names(&["b", "c"])]);
}

#[test]
fn planner_links_relations_that_share_names() {
    let planner = Planner::default()
        .join(Relation::new(names(&["a", "b"])))
        .join(Relation::new(names(&["c", "d"])))
        .join(Relation::new(names(&["b", "c"])));
    let g = planner.query_graph();
    assert_eq!(g.neighbours(0), vec![2]);
    assert_eq!(g.neighbours(1), vec![2]);
    assert_eq!(g.neighbours(2), vec![0, 1]);
    assert!(g.neighbours(3).is_empty());
}

#[test]
fn planner_lists_each_neighbour_once() {
    let planner = Planner::new()
        .join(Relation::new(names(&["a", "b"])))
        .join(Relation::new(names(&["a", "b", "c"])))
        .join(Relation::new(names(&["x"])));
    let g = planner.query_graph();
    assert_eq!(g.neighbours(0), vec![1]);
    assert_eq!(g.neighbours(1), vec![0]);
    assert!(g.neighbours(2).is_empty());
}

#[test]
fn default_graph_is_empty() {
    let mut g = Graph::default();
    assert!(g.neighbours(0).is_empty());
    g.edge(0, 1);
    assert_eq!(g.neighbours(0), vec![1]);
}
