use lezeh::db_metadata::{psql_table_map_from_foreign_key_info_rows, ForeignKeyInformationRow, PsqlTableMap};
use lezeh::dto::{ForeignKeysByName, PsqlColumnValue, PsqlTable, PsqlTableColumn, PsqlTableIdentity, PsqlTableRow};
use lezeh::relation_fetcher::{RelationFetcher, RelationWalk, WalkStep};
use petgraph::graph::NodeIndex;

fn tables() -> PsqlTableMap {
    let mut map = PsqlTableMap::new();
    for name in ["stores", "orders", "order_items"] {
        map.insert(PsqlTable::new(
            "public",
            name,
            PsqlTableColumn::new("id", "integer"),
            vec![],
            ForeignKeysByName::new(),
            ForeignKeysByName::new(),
        ));
    }
    let fk = |constraint: &str, table: &str, column: &str, foreign: &str| ForeignKeyInformationRow {
        constraint_name: constraint.into(),
        table_schema: "public".into(),
        table_name: table.into(),
        column_name: column.into(),
        column_data_type: "integer".into(),
        foreign_table_schema: "public".into(),
        foreign_table_name: foreign.into(),
        foreign_column_name: "id".into(),
        foreign_column_data_type: "integer".into(),
    };
    psql_table_map_from_foreign_key_info_rows(
        &mut map,
        &vec![
            fk("orders_store_id_foreign", "orders", "store_id", "stores"),
            fk("order_items_order_id_foreign", "order_items", "order_id", "orders"),
        ],
    );
    map
}

#[test]
fn parents_are_fetched_by_the_referred_primary_key() {
    let map = tables();
    let orders = map.get(&PsqlTableIdentity::new("public", "orders")).unwrap().clone();
    let row = PsqlTableRow {
        table: orders,
        row_id_representation: "5".into(),
        column_values: vec![PsqlColumnValue { name: "store_id".into(), value: "2".into() }],
    };
    let parents = RelationFetcher::referencing_queries(&row, &map);
    assert_eq!(parents.len(), 1);
    assert_eq!(parents[0].table.id, PsqlTableIdentity::new("public", "stores"));
    assert_eq!(parents[0].column_name, "id");
    assert_eq!(parents[0].id_column.name, "store_id");

    let children = RelationFetcher::referenced_queries(&row, &map);
    assert_eq!(children.len(), 1);
    assert_eq!(children[0].table.id, PsqlTableIdentity::new("public", "order_items"));
    assert_eq!(children[0].column_name, "order_id");
    assert_eq!(children[0].id_column.name, "id");
}

fn row_of(map: &PsqlTableMap, table: &str, id: &str) -> PsqlTableRow {
    PsqlTableRow {
        table: map.get(&PsqlTableIdentity::new("public", table)).unwrap().clone(),
        row_id_representation: id.into(),
        column_values: vec![PsqlColumnValue { name: "id".into(), value: id.into() }],
    }
}

/// Runs a walk from an order, answering each fetch from a fixed set of rows.
#[test]
fn the_walk_fetches_parents_then_children_and_links_referring_to_referred() {
    let map = tables();
    let mut walk = RelationWalk::new(row_of(&map, "orders", "5"), "orders 5", &map);
    let mut asked: Vec<(usize, String)> = Vec::new();
    loop {
        match walk.next(&map) {
            WalkStep::Fetch { node, query } => {
                asked.push((node, query.table.id.name.clone()));
                let answer = match query.table.id.name.as_str() {
                    "stores" => vec![(row_of(&map, "stores", "2"), "stores 2")],
                    "order_items" if node == 0 => vec![
                        (row_of(&map, "order_items", "7"), "order_items 7"),
                        (row_of(&map, "order_items", "8"), "order_items 8"),
                    ],
                    // Each item refers back to the order, which is met again.
                    "orders" => vec![(row_of(&map, "orders", "5"), "orders 5")],
                    _ => vec![],
                };
                walk.answer(&map, answer);
            }
            WalkStep::Done => break,
            WalkStep::Full | WalkStep::UnknownTable => panic!("the walk stopped"),
        }
    }

    // Parents first: the store of the order, then its items and their relations.
    assert_eq!(asked[0], (0, "stores".to_owned()));
    assert_eq!(asked[1], (0, "order_items".to_owned()));
    assert_eq!(asked[2], (2, "orders".to_owned()));
    assert_eq!(*walk.raw(3), "order_items 8");

    let graph = walk.into_graph();
    // The order, its store and its two items, each once.
    assert_eq!(graph.node_count(), 4);
    // order -> store, item 7 -> order, item 8 -> order, each once.
    assert_eq!(graph.edge_count(), 3);
    assert!(graph.find_edge(NodeIndex::new(0), NodeIndex::new(1)).is_some());
    assert!(graph.find_edge(NodeIndex::new(2), NodeIndex::new(0)).is_some());
    assert!(graph.find_edge(NodeIndex::new(3), NodeIndex::new(0)).is_some());
}

#[test]
fn every_edge_of_the_walk_weighs_minus_one() {
    let map = tables();
    let mut walk = RelationWalk::new(row_of(&map, "order_items", "7"), (), &map);
    loop {
        match walk.next(&map) {
            WalkStep::Fetch { query, .. } => {
                let answer = match query.table.id.name.as_str() {
                    "orders" => vec![(row_of(&map, "orders", "5"), ())],
                    "stores" => vec![(row_of(&map, "stores", "2"), ())],
                    _ => vec![],
                };
                walk.answer(&map, answer);
            }
            WalkStep::Done => break,
            WalkStep::Full | WalkStep::UnknownTable => panic!("the walk stopped"),
        }
    }
    let graph = walk.into_graph();
    // item -> order -> store: parents are followed towards the rows they refer to only.
    assert_eq!(graph.node_count(), 3);
    assert_eq!(graph.edge_count(), 2);
    assert!(graph.edge_weights().all(|w| *w == -1));
}

#[test]
fn a_key_to_an_unknown_table_stops_the_walk_and_keeps_its_visit() {
    let mut map = tables();
    let rows = vec![ForeignKeyInformationRow {
        constraint_name: "orders_coupon_id_foreign".into(),
        table_schema: "public".into(),
        table_name: "orders".into(),
        column_name: "coupon_id".into(),
        column_data_type: "integer".into(),
        foreign_table_schema: "public".into(),
        foreign_table_name: "coupons".into(),
        foreign_column_name: "id".into(),
        foreign_column_data_type: "integer".into(),
    }];
    psql_table_map_from_foreign_key_info_rows(&mut map, &rows);
    let mut walk = RelationWalk::new(row_of(&map, "orders", "5"), (), &map);
    assert!(matches!(walk.next(&map), WalkStep::UnknownTable));
    assert!(matches!(walk.next(&map), WalkStep::UnknownTable));
}
