use std::collections::HashMap;
use std::collections::HashSet;

use lezeh::dto::{ForeignKeysByName, PsqlTable, PsqlTableColumn, PsqlTableRow};
use lezeh::graph::{
    create_nodes_by_level, find_or_add_row, link_rows, try_create_nodes_by_level, try_find_or_add_row,
    try_link_rows,
};
use petgraph::graph::{Graph, NodeIndex};

// Every row is labelled ({level}, {label}) through its table name and id, as in
// the tuples the walk is checked with.
fn node(level: i32, label: &str) -> PsqlTableRow {
    PsqlTableRow {
        table: PsqlTable::new(
            "public",
            &level.to_string(),
            PsqlTableColumn::new("id", "text"),
            vec![],
            ForeignKeysByName::new(),
            ForeignKeysByName::new(),
        ),
        row_id_representation: label.to_owned(),
        column_values: vec![],
    }
}

fn labels(levels: HashMap<i32, Vec<PsqlTableRow>>) -> HashMap<i32, HashSet<(i32, String)>> {
    levels
        .into_iter()
        .map(|(level, rows)| {
            (
                level,
                rows.into_iter()
                    .map(|r| (r.table.id.name.parse::<i32>().unwrap(), r.row_id_representation))
                    .collect(),
            )
        })
        .collect()
}

// Adds each (source, target) pair as an edge with the default weight.
fn add_edges(graph: &mut Graph<PsqlTableRow, i32>, edges: &[(NodeIndex, NodeIndex)]) {
    for (source, target) in edges {
        graph.add_edge(*source, *target, i32::default());
    }
}

fn set(items: &[(i32, &str)]) -> HashSet<(i32, String)> {
    items.iter().map(|(l, s)| (*l, s.to_string())).collect()
}

#[test]
fn test_empty_graph() {
    let graph: Graph<PsqlTableRow, i32> = Graph::new();

    let nodes_by_level = create_nodes_by_level(&graph, NodeIndex::<u32>::new(0).index(), 0);

    assert_eq!(nodes_by_level.is_empty(), true);
}

#[test]
fn test_1_level_graph() {
    let mut graph: Graph<PsqlTableRow, i32> = Graph::new();

    let current_index = graph.add_node(node(0, "a"));

    let mut nodes_by_level = labels(create_nodes_by_level(&graph, current_index.index(), 0));

    assert_eq!(nodes_by_level.len(), 1);
    assert_eq!(
        nodes_by_level.remove(&0).unwrap().into_iter().collect::<Vec<_>>(),
        vec![(0 as i32, "a".to_owned())]
    );
}

#[test]
fn test_only_has_parents() {
    let mut graph: Graph<PsqlTableRow, i32> = Graph::new();

    let current_index = graph.add_node(node(0, "a"));
    let pa1 = graph.add_node(node(-1, "pa1"));
    let pa2 = graph.add_node(node(-1, "pa2"));
    let paa1 = graph.add_node(node(-2, "paa1"));

    add_edges(&mut graph, &[(current_index, pa1), (current_index, pa2), (pa1, paa1)]);

    let nodes_by_level = labels(create_nodes_by_level(&graph, current_index.index(), 0));

    let mut expected_levels = HashMap::new();
    expected_levels.insert(-2, set(&[(-2, "paa1")]));
    expected_levels.insert(-1, set(&[(-1, "pa1"), (-1, "pa2")]));
    expected_levels.insert(0, set(&[(0, "a")]));

    assert_eq!(nodes_by_level.len(), 3);
    assert_eq!(nodes_by_level, expected_levels);
}

#[test]
fn test_only_has_children() {
    let mut graph: Graph<PsqlTableRow, i32> = Graph::new();

    let current_index = graph.add_node(node(0, "a"));
    let ca1 = graph.add_node(node(1, "ca1"));
    let ca2 = graph.add_node(node(1, "ca2"));
    let caa1 = graph.add_node(node(2, "caa1"));

    add_edges(&mut graph, &[(ca1, current_index), (ca2, current_index), (caa1, ca1)]);

    let nodes_by_level = labels(create_nodes_by_level(&graph, current_index.index(), 0));

    let mut expected_levels = HashMap::new();
    expected_levels.insert(2, set(&[(2, "caa1")]));
    expected_levels.insert(1, set(&[(1, "ca1"), (1, "ca2")]));
    expected_levels.insert(0, set(&[(0, "a")]));

    assert_eq!(nodes_by_level.len(), 3);
    assert_eq!(nodes_by_level, expected_levels);
}

#[test]
fn test_multi_level_graph() {
    let mut graph: Graph<PsqlTableRow, i32> = Graph::new();

    let current_index = graph.add_node(node(0, "a"));
    let paa1 = graph.add_node(node(-2, "paa1"));
    let pa1 = graph.add_node(node(-1, "pa1"));
    let pa2 = graph.add_node(node(-1, "pa2"));
    let ca1 = graph.add_node(node(1, "ca1"));
    let ca2 = graph.add_node(node(1, "ca2"));
    let caa1 = graph.add_node(node(2, "caa1"));

    add_edges(&mut graph, &[
        // Parents
        (current_index, pa1),
        (current_index, pa2),
        (pa1, paa1),
        // Children
        (ca1, current_index),
        (ca2, current_index),
        (caa1, ca1),
    ]);

    let nodes_by_level = labels(create_nodes_by_level(&graph, current_index.index(), 0));

    let mut expected_levels = HashMap::new();
    expected_levels.insert(-2, set(&[(-2, "paa1")]));
    expected_levels.insert(-1, set(&[(-1, "pa1"), (-1, "pa2")]));
    expected_levels.insert(0, set(&[(0, "a")]));
    expected_levels.insert(1, set(&[(1, "ca1"), (1, "ca2")]));
    expected_levels.insert(2, set(&[(2, "caa1")]));

    assert_eq!(nodes_by_level.len(), 5);
    assert_eq!(nodes_by_level, expected_levels);
}

#[test]
fn rows_are_added_once_and_linked_once() {
    let mut graph: Graph<PsqlTableRow, i32> = Graph::new();
    let a = find_or_add_row(&mut graph, node(0, "a"));
    let b = find_or_add_row(&mut graph, node(1, "b"));
    let a_again = find_or_add_row(&mut graph, node(0, "a"));
    assert_eq!((a, b, a_again), (0, 1, 0));
    assert_eq!(graph.node_count(), 2);
    link_rows(&mut graph, b, a);
    link_rows(&mut graph, b, a);
    assert_eq!(graph.edge_count(), 1);
    assert_eq!(graph[graph.find_edge(NodeIndex::new(b), NodeIndex::new(a)).unwrap()], -1);
}

#[test]
fn guarded_operations_refuse_what_does_not_fit() {
    let mut graph: Graph<PsqlTableRow, i32> = Graph::new();
    assert_eq!(try_find_or_add_row(&mut graph, node(0, "a")), Some(0));
    assert_eq!(try_find_or_add_row(&mut graph, node(1, "b")), Some(1));
    assert_eq!(try_find_or_add_row(&mut graph, node(0, "a")), Some(0));

    assert!(!try_link_rows(&mut graph, 1, 2));
    assert_eq!(graph.edge_count(), 0);
    assert!(try_link_rows(&mut graph, 1, 0));
    assert_eq!(graph.edge_count(), 1);

    assert!(try_create_nodes_by_level(&graph, 0, i32::MAX).is_none());
    assert!(try_create_nodes_by_level(&graph, 0, i32::MIN).is_none());
    let levels = labels(try_create_nodes_by_level(&graph, 0, 0).unwrap());
    let mut expected = HashMap::new();
    expected.insert(0, set(&[(0, "a")]));
    expected.insert(1, set(&[(1, "b")]));
    assert_eq!(levels, expected);
}
